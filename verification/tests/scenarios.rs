use pseudodouble::pseudo_double::{pd_neg_one, pd_one, pd_zero, PseudoDouble};
use pseudodouble::scalar::{gt_zero, gte_zero, lt_zero, lte_zero};
use pseudodouble::trig::{PD_HALF_BITS, PD_QUARTER_BITS, PD_THREE_QUARTERS_BITS};

fn encode(f: f64) -> PseudoDouble {
    PseudoDouble::double_bits_to_pseudodouble(f.to_bits())
}

fn decode(x: PseudoDouble) -> f64 {
    f64::from_bits(x.to_double_bits())
}

fn close(a: f64, b: f64, tolerance: f64) -> bool {
    (a - b).abs() <= tolerance * a.abs().max(b.abs())
}

fn samples() -> Vec<f64> {
    let mut v = vec![0.0, 1.0, -1.0, 0.5, -0.5, 0.75, -0.75, 1.5, -1.5, 2.5, -2.5, 3.0, 7.0];
    let mut x = 1.0e-6;
    while x < 1.0e7 {
        v.push(x);
        v.push(-x);
        v.push(x * 1.37);
        v.push(-x * 1.91);
        x *= 7.3;
    }
    v
}

#[test]
fn square_root_of_four_is_two() {
    let r = decode(encode(4.0).sqrt());
    assert!(close(r, 2.0, 1e-13));
    assert_eq!(encode(4.0).sqrt(), PseudoDouble::from_i64(2));
    assert_eq!(PseudoDouble(0).sqrt(), PseudoDouble(0));
}

#[test]
fn arctangent_on_the_negative_axis_is_exactly_half_a_turn() {
    for x in [-1.0, -0.001, -12345.678] {
        assert_eq!(PseudoDouble(0).atan2_rev(encode(x)), encode(0.5));
        assert_eq!(PseudoDouble(0).atan2_rev(encode(x)).0, PD_HALF_BITS);
    }
}

#[test]
fn arctangent_on_the_other_axes() {
    assert_eq!(PseudoDouble(0).atan2_rev(encode(3.0)), PseudoDouble(0));
    assert_eq!(PseudoDouble(0).atan2_rev(PseudoDouble(0)), PseudoDouble(0));
    assert_eq!(encode(2.0).atan2_rev(PseudoDouble(0)).0, PD_QUARTER_BITS);
    assert_eq!(encode(-2.0).atan2_rev(PseudoDouble(0)).0, PD_THREE_QUARTERS_BITS);
    assert_eq!(decode(PseudoDouble(PD_QUARTER_BITS)), 0.25);
    assert_eq!(decode(PseudoDouble(PD_THREE_QUARTERS_BITS)), 0.75);
}

#[test]
fn arctangent_on_the_diagonals() {
    assert_eq!(decode(encode(1.0).atan2_rev(encode(1.0))), 0.125);
    assert_eq!(decode(encode(5.0).atan2_rev(encode(-5.0))), 0.375);
    assert_eq!(decode(encode(-5.0).atan2_rev(encode(-5.0))), -0.375);
    assert_eq!(decode(encode(-0.25).atan2_rev(encode(0.25))), -0.125);
}

#[test]
fn scaling_one_half_by_two_is_one() {
    assert_eq!(decode(encode(0.5).ldexp(1)), 1.0);
    assert_eq!(encode(0.5).ldexp(1), pd_one());
    assert_eq!(encode(3.0).ldexp(-2), encode(0.75));
    assert_eq!(PseudoDouble(0).ldexp(5), PseudoDouble(0));
    assert_eq!(PseudoDouble(0x4000_0000_0000_0003).ldexp(-4), PseudoDouble(0));
}

#[test]
fn rounding_minus_one_half_gives_minus_one() {
    assert_eq!(encode(-0.5).round(), pd_neg_one());
    assert_eq!(encode(0.5).round(), pd_one());
    assert_eq!(encode(1.5).round(), encode(2.0));
    assert_eq!(encode(-1.5).round(), encode(-2.0));
    assert_eq!(encode(2.5).round(), encode(3.0));
    assert_eq!(encode(-2.5).round(), encode(-3.0));
    assert_eq!(encode(0.4999).round(), PseudoDouble(0));
    assert_eq!(encode(-0.4999).round(), PseudoDouble(0));
}

#[test]
fn ceiling_of_minus_one_is_minus_one() {
    assert_eq!(encode(-1.0).ceil(), pd_neg_one());
    assert_eq!(encode(-0.5).ceil(), PseudoDouble(0));
    assert_eq!(encode(0.5).ceil(), pd_one());
    assert_eq!(encode(0.0).ceil(), PseudoDouble(0));
    assert_eq!(encode(1.0).ceil(), pd_one());
    assert_eq!(encode(1.25).ceil(), encode(2.0));
    assert_eq!(encode(-1.25).ceil(), pd_neg_one());
    assert_eq!(encode(3.999).ceil(), encode(4.0));
}

#[test]
fn floor_and_truncation() {
    assert_eq!(encode(1.75).floor(), pd_one());
    assert_eq!(encode(-1.75).floor(), encode(-2.0));
    assert_eq!(encode(0.25).floor(), PseudoDouble(0));
    assert_eq!(encode(-0.25).floor(), pd_neg_one());
    assert_eq!(encode(-1.0).floor(), pd_neg_one());
    assert_eq!(encode(1.75).trunc(), pd_one());
    assert_eq!(encode(-1.75).trunc(), pd_neg_one());
    assert_eq!(encode(1.75).fract(), encode(0.75));
    assert_eq!(encode(-1.75).fract(), encode(0.25));
    assert_eq!(encode(1.0e15).floor(), encode(1.0e15));
}

#[test]
fn a_number_lies_between_its_floor_and_its_ceiling() {
    for f in samples() {
        let x = encode(f);
        assert!(x.floor().const_less_than_or_equal(x), "floor of {}", f);
        assert!(x.const_less_than_or_equal(x.ceil()), "ceil of {}", f);
        assert_eq!(decode(x.floor()), decode(x).floor());
        assert_eq!(decode(x.ceil()), decode(x).ceil() + 0.0);
        assert!(x.floor().is_well_formed());
        assert!(x.ceil().is_well_formed());
    }
}

#[test]
fn a_power_with_exponent_zero_is_one() {
    for f in samples() {
        if f > 0.0 {
            assert_eq!(encode(f).powf(PseudoDouble(0)), pd_one());
            assert_eq!(encode(f).pow(PseudoDouble(0)), pd_one());
        }
    }
}

#[test]
fn a_power_with_exponent_one_is_the_base() {
    for f in samples() {
        if f > 0.0 {
            assert!(close(decode(encode(f).powf(pd_one())), f, 1e-12), "base {}", f);
        }
    }
}

#[test]
fn the_square_of_the_square_root_is_the_number() {
    for f in samples() {
        if f > 0.0 {
            let r = encode(f).sqrt();
            assert!(close(decode(r * r), f, 1e-13), "root of {}", f);
            let i = encode(f).inv_sqrt();
            assert!(close(decode(i * i * encode(f)), 1.0, 1e-13), "inverse root of {}", f);
        }
    }
}

#[test]
fn the_exponential_undoes_the_logarithm() {
    for f in samples() {
        if f > 0.0 {
            assert!(close(decode(encode(f).log2().exp2()), f, 1e-12), "number {}", f);
            assert!(close(decode(encode(f).ln().exp()), f, 1e-11), "number {}", f);
            assert!(close(decode(encode(f).log10().exp10()), f, 1e-11), "number {}", f);
        }
    }
}

#[test]
fn the_order_of_the_words_is_the_order_of_the_numbers() {
    let v = samples();
    for a in &v {
        for b in &v {
            let x = encode(*a);
            let y = encode(*b);
            assert_eq!(x.const_less_than(y), a < b, "{} < {}", a, b);
            assert_eq!(x.const_less_than_or_equal(y), a <= b, "{} <= {}", a, b);
            assert_eq!(x < y, a < b);
            assert_eq!(x >= y, a >= b);
        }
    }
}

#[test]
fn negation_is_exact_and_its_own_inverse() {
    for f in samples() {
        let x = encode(f);
        assert_eq!(decode(x.const_neg()), -decode(x) + 0.0);
        assert_eq!(x.const_neg().const_neg(), x);
        assert_eq!(-x, x.const_neg());
        assert_eq!(decode(x.abs()), decode(x).abs());
        assert!(x.const_neg().is_well_formed());
    }
    assert_eq!(pd_one().const_neg(), pd_neg_one());
    assert_eq!(pd_neg_one().const_neg(), pd_one());
    assert_eq!(PseudoDouble(0).const_neg(), PseudoDouble(0));
}

#[test]
fn arithmetic_keeps_words_well_formed() {
    let v = samples();
    for a in &v {
        for b in &v {
            let x = encode(*a);
            let y = encode(*b);
            assert!(x.const_add(y).is_well_formed());
            assert!(x.const_sub(y).is_well_formed());
            assert!(x.const_mul(y).is_well_formed());
            if *b != 0.0 {
                assert!(x.const_div(y).is_well_formed());
            }
        }
    }
}

#[test]
fn results_below_the_exponent_range_are_zero() {
    let tiny = PseudoDouble(0x4000_0000_0000_0005);
    assert_eq!(tiny.const_mul(tiny), PseudoDouble(0));
    assert_eq!(tiny.const_div(encode(1.0e300)), PseudoDouble(0));
    assert_eq!(PseudoDouble(0x4000_0000_0000_0000).const_neg(), PseudoDouble(0));
    assert_eq!(encode(-100000.0).exp2(), PseudoDouble(0));
}

#[test]
fn operands_far_apart_in_magnitude() {
    let big = encode(1.0e30);
    let small = encode(1.0e-30);
    assert_eq!(big.const_add(small), big);
    assert_eq!(small.const_add(big), big);
    assert_eq!(big.const_sub(small), big);
    assert_eq!(small.const_sub(big), big.const_neg());
}

#[test]
fn sign_tests_read_the_word() {
    assert!(gt_zero(pd_one()) && !gt_zero(pd_zero()) && !gt_zero(pd_neg_one()));
    assert!(gte_zero(pd_one()) && gte_zero(pd_zero()) && !gte_zero(pd_neg_one()));
    assert!(!lt_zero(pd_one()) && !lt_zero(pd_zero()) && lt_zero(pd_neg_one()));
    assert!(!lte_zero(pd_one()) && lte_zero(pd_zero()) && lte_zero(pd_neg_one()));
    assert!(PseudoDouble::gt_zero(pd_one()) && PseudoDouble::lt_zero(pd_neg_one()));
    assert!(PseudoDouble::gte_zero(pd_zero()) && PseudoDouble::lte_zero(pd_zero()));
}

#[test]
fn binary64_patterns_at_the_edges() {
    assert_eq!(encode(0.0), PseudoDouble(0));
    assert_eq!(encode(-0.0), PseudoDouble(0));
    assert_eq!(PseudoDouble(0).to_double_bits(), 0);
    assert_eq!(PseudoDouble(0).to_float_bits(), 0);
    assert_eq!(decode(pd_one()), 1.0);
    assert_eq!(decode(pd_neg_one()), -1.0);
    assert_eq!(f32::from_bits(pd_one().to_float_bits()), 1.0f32);
    assert_eq!(f32::from_bits(encode(-2.5).to_float_bits()), -2.5f32);
    assert_eq!(f32::from_bits(encode(0.1).to_float_bits()), 0.1f32);
    let large = pd_one().ldexp(2000);
    assert!(decode(large).is_nan());
    assert!(f32::from_bits(large.to_float_bits()).is_nan());
    assert!(decode(large.const_neg()).is_nan());
    let small = pd_one().ldexp(-2000);
    assert_eq!(decode(small), 0.0);
    assert_eq!(decode(small.const_neg()), 0.0);
    assert_eq!(f32::from_bits(pd_one().ldexp(-200).to_float_bits()), 0.0f32);
    for f in samples() {
        assert!(close(decode(encode(f)), f, 1e-13));
        assert!(close(f32::from_bits(encode(f).to_float_bits()) as f64, f, 1e-6));
    }
}

#[test]
fn identities_are_exact_at_the_powers_of_two() {
    for k in -200..200 {
        let x = pd_one().ldexp(k);
        assert_eq!(x.log2(), PseudoDouble::from_i64(k as i64), "log2 of 2^{}", k);
        assert_eq!(PseudoDouble::from_i64(k as i64).exp2(), x, "exp2 of {}", k);
        assert_eq!(x.log2().exp2(), x);
        let even = pd_one().ldexp(2 * k);
        assert_eq!(even.sqrt(), x, "sqrt of 4^{}", k);
        assert_eq!(even.sqrt().const_mul(even.sqrt()), even);
    }
    assert_eq!(PseudoDouble::from_i64(-32768).exp2(), pd_one().ldexp(-32768));
    assert_eq!(PseudoDouble::from_i64(32765).exp2(), pd_one().ldexp(32765));
}

#[test]
fn leaving_the_exponent_range_is_detected() {
    let top = PseudoDouble(0x4000_0000_0000_FFFF);
    let one = pd_one();
    assert!(one.add_is_in_range(one) && one.sub_is_in_range(one));
    assert!(one.mul_is_in_range(one) && one.div_is_in_range(one));
    assert!(!top.add_is_in_range(top));
    assert!(top.sub_is_in_range(top));
    assert!(!top.sub_is_in_range(top.const_neg()));
    assert!(!top.mul_is_in_range(top));
    assert!(top.mul_is_in_range(one));
    let tiny = PseudoDouble(0x4000_0000_0000_0000);
    assert!(!top.div_is_in_range(tiny));
    assert!(tiny.div_is_in_range(top));
    assert!(tiny.mul_is_in_range(tiny));
    assert!(!tiny.sub_is_in_range(PseudoDouble(0x4000_0000_0001_0000)));
    for f in samples() {
        for g in samples() {
            let x = encode(f);
            let y = encode(g);
            assert!(x.add_is_in_range(y) && x.sub_is_in_range(y) && x.mul_is_in_range(y));
            if g != 0.0 {
                assert!(x.div_is_in_range(y));
            }
        }
    }
}

#[test]
fn the_kernels_stay_within_their_ranges() {
    let mut words: Vec<i64> = Vec::new();
    for f in samples() {
        if f > 0.0 {
            words.push(encode(f).0);
        }
    }
    let mut state: u64 = 0x9E37_79B9_7F4A_7C15;
    for _ in 0..20000 {
        state = state.wrapping_mul(6364136223846793005).wrapping_add(1442695040888963407);
        let mantissa = ((state >> 2) | (1 << 62)) & !0xFFFF;
        let exponent = 0x8000 - 64 + (state % 128);
        words.push((mantissa + exponent) as i64);
    }
    for e in [0x8000i64, 0x8001, 0x8002, 0x8003, 0x7FFF] {
        words.push(0x4000_0000_0001_0000 + e);
        words.push(0x7FFF_FFFF_FFFF_0000 + e);
        words.push(0x4000_0000_0000_0000 + e);
    }
    for w in words {
        let x = PseudoDouble(w);
        assert!(x.is_well_formed());
        assert!(x.sqrt_is_in_range(), "sqrt of word {:#x}", w);
        assert!(x.inv_sqrt_is_in_range(), "inv_sqrt of word {:#x}", w);
        assert!(x.log2_is_in_range(), "log2 of word {:#x}", w);
        assert!(x.sqrt().is_well_formed());
        assert!(x.inv_sqrt().is_well_formed());
        assert!(x.log2().is_well_formed());
    }
}
