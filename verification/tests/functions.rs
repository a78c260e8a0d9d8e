use pseudodouble::pseudo_double::{pd_neg_one, pd_one, PseudoDouble, PD_PI_BITS, PD_TAU_BITS};
use pseudodouble::scalar::{PD_SIX_BITS, PD_TEN_BITS, PD_TWO_BITS};
use pseudodouble::trig::{PD_HALF_BITS, PD_THREE_QUARTERS_BITS};

fn encode(f: f64) -> PseudoDouble {
    PseudoDouble::double_bits_to_pseudodouble(f.to_bits())
}

fn decode(x: PseudoDouble) -> f64 {
    f64::from_bits(x.to_double_bits())
}

fn close(a: f64, b: f64, tolerance: f64) -> bool {
    (a - b).abs() <= tolerance * a.abs().max(b.abs())
}

fn angles() -> Vec<f64> {
    let mut v = Vec::new();
    let mut x = -9.7;
    while x < 10.0 {
        v.push(x);
        x += 0.37;
    }
    v
}

#[test]
fn sine_and_cosine_in_turns() {
    assert_eq!(PseudoDouble(0).sin_rev(), PseudoDouble(0));
    assert_eq!(PseudoDouble(0).cos_rev(), pd_one());
    assert_eq!(encode(0.25).sin_rev(), pd_one());
    assert_eq!(encode(0.5).sin_rev(), PseudoDouble(0));
    assert_eq!(encode(0.75).sin_rev(), pd_neg_one());
    assert_eq!(encode(0.5).cos_rev(), pd_neg_one());
    assert_eq!(encode(0.25).cos_rev(), PseudoDouble(0));
    assert_eq!(encode(1.0).cos_rev(), pd_one());
    assert_eq!(encode(1.0e20).sin_rev(), PseudoDouble(0));
    for a in angles() {
        let t = a / 7.0;
        let tau = std::f64::consts::TAU;
        assert!((decode(encode(t).sin_rev()) - (t * tau).sin()).abs() < 1e-12, "turns {}", t);
        assert!((decode(encode(t).cos_rev()) - (t * tau).cos()).abs() < 1e-12, "turns {}", t);
    }
}

#[test]
fn sine_cosine_and_tangent_in_radians() {
    for a in angles() {
        let x = encode(a);
        assert!((decode(x.sin()) - a.sin()).abs() < 1e-11, "angle {}", a);
        assert!((decode(x.cos()) - a.cos()).abs() < 1e-11, "angle {}", a);
        let (s, c) = x.sin_cos();
        assert_eq!(s, x.sin());
        assert_eq!(c, x.cos());
        assert_eq!(x.tan(), x.sin().const_div(x.cos()));
        assert!(close(decode(x.tan()), a.tan(), 1e-9), "angle {}", a);
    }
}

#[test]
fn arctangents() {
    for a in angles() {
        for b in [-3.0, -0.5, 0.25, 1.0, 4.5] {
            let y = encode(a);
            let x = encode(b);
            assert!(y.atan2_is_defined(x));
            let tau = std::f64::consts::TAU;
            assert!((decode(y.atan2_rev(x)) - a.atan2(b) / tau).abs() < 1e-12);
            assert!(close(decode(y.atan2(x)), a.atan2(b), 1e-10));
            assert_eq!(y.atan2(x), y.atan2_rev(x).const_mul(PseudoDouble(PD_TAU_BITS)));
        }
        assert!(close(decode(encode(a).atan()), a.atan(), 1e-10));
        assert_eq!(encode(a).atan_rev(), encode(a).atan2_rev(pd_one()));
    }
    assert!(!PseudoDouble(0x9000).atan2_is_defined(PseudoDouble(0x8000)));
}

#[test]
fn arcsine_and_arccosine() {
    let three_quarter_turns = PseudoDouble(PD_THREE_QUARTERS_BITS).const_mul(PseudoDouble(PD_TAU_BITS));
    assert_eq!(encode(-1.0).asin(), three_quarter_turns);
    assert_eq!(encode(-1.0).acos(), PseudoDouble(PD_HALF_BITS).const_mul(PseudoDouble(PD_TAU_BITS)));
    for f in [-0.9, -0.5, -0.1, 0.0, 0.3, 0.7071, 0.99, 1.0] {
        let x = encode(f);
        assert!(x.asin_is_defined());
        assert!(x.acos_is_defined());
        assert!((decode(x.asin()) - f.asin()).abs() < 1e-7, "asin {}", f);
        assert!((decode(x.acos()) - f.acos()).abs() < 1e-7, "acos {}", f);
    }
    for f in [-1.5, 1.0001, 2.0, -100.0] {
        assert!(!encode(f).asin_is_defined());
        assert!(!encode(f).acos_is_defined());
    }
}

#[test]
fn hyperbolic_functions() {
    for f in [-5.0, -1.3, -0.2, 0.1, 0.9, 2.4, 6.0] {
        let x = encode(f);
        assert!(close(decode(x.sinh()), f.sinh(), 1e-9), "sinh {}", f);
        assert!(close(decode(x.cosh()), f.cosh(), 1e-11), "cosh {}", f);
        assert!(close(decode(x.tanh()), f.tanh(), 1e-9), "tanh {}", f);
        assert!(x.asinh_is_defined());
        assert!(close(decode(x.asinh()), f.asinh(), 1e-8), "asinh {}", f);
    }
    for f in [1.0, 1.5, 2.0, 10.0, 1000.0] {
        let x = encode(f);
        assert!(x.acosh_is_defined());
        assert!((decode(x.acosh()) - f.acosh()).abs() < 1e-7, "acosh {}", f);
    }
    for f in [-0.9, -0.3, 0.0, 0.2, 0.75] {
        let x = encode(f);
        assert!(x.atanh_is_defined());
        assert!((decode(x.atanh()) - f.atanh()).abs() < 1e-10, "atanh {}", f);
    }
    for f in [0.5, 0.0, -3.0] {
        assert!(!encode(f).acosh_is_defined());
    }
    for f in [1.0, -1.0, 1.5, -7.0] {
        assert!(!encode(f).atanh_is_defined());
    }
}

#[test]
fn exponentials_and_logarithms() {
    assert_eq!(PseudoDouble(0).exp2(), pd_one());
    assert_eq!(pd_one().exp2(), PseudoDouble::from_i64(2));
    assert_eq!(PseudoDouble::from_i64(10).exp2(), PseudoDouble::from_i64(1024));
    assert_eq!(PseudoDouble::from_i64(-3).exp2(), encode(0.125));
    assert_eq!(pd_one().log2(), PseudoDouble(0));
    assert_eq!(PseudoDouble::from_i64(1024).log2(), PseudoDouble::from_i64(10));
    assert_eq!(encode(0.125).log2(), PseudoDouble::from_i64(-3));
    assert_eq!(encode(0.5).log2(), pd_neg_one());
    for f in [-20.5, -3.0, -0.7, 0.001, 0.4, 1.0, 2.5, 17.25] {
        let x = encode(f);
        assert!(close(decode(x.exp2()), f.exp2(), 1e-12), "exp2 {}", f);
        assert!(close(decode(x.exp()), f.exp(), 1e-11), "exp {}", f);
        assert!(close(decode(x.exp10()), 10f64.powf(f), 1e-10), "exp10 {}", f);
        assert!(close(decode(x.exp_m1()), f.exp() - 1.0, 1e-9), "exp_m1 {}", f);
    }
    for f in [0.001, 0.4, 0.99, 1.01, 2.5, 17.25, 1.0e9] {
        let x = encode(f);
        assert!(close(decode(x.log2()), f.log2(), 1e-11), "log2 {}", f);
        assert!(close(decode(x.ln()), f.ln(), 1e-11), "ln {}", f);
        assert!(close(decode(x.log()), f.ln(), 1e-11), "log {}", f);
        assert!(close(decode(x.log10()), f.log10(), 1e-11), "log10 {}", f);
        assert!(close(decode(x.ln_1p()), f.ln_1p(), 1e-11), "ln_1p {}", f);
        assert!(close(decode(x.log_base(encode(3.0))), f.ln() / 3f64.ln(), 1e-11));
        assert!(close(decode(x.cbrt()), f.cbrt(), 1e-11), "cbrt {}", f);
    }
}

#[test]
fn powers() {
    for (b, e) in [(2.0, 10.0), (2.0, -1.0), (9.0, 0.5), (1.5, 3.25), (0.3, 2.0), (10.0, -4.5)] {
        assert!(close(decode(encode(b).powf(encode(e))), f64::powf(b, e), 1e-10));
    }
    assert_eq!(PseudoDouble::from_i64(2).powf(PseudoDouble::from_i64(3)), PseudoDouble::from_i64(8));
    assert_eq!(pd_one().powf(encode(123.456)), pd_one());
}

#[test]
fn integer_powers() {
    assert_eq!(encode(2.0).powi(0), pd_one());
    assert_eq!(encode(-2.0).powi(0), pd_one());
    assert_eq!(PseudoDouble(0).powi(0), pd_one());
    assert_eq!(encode(2.0).powi(1), encode(2.0));
    assert_eq!(encode(2.0).powi(3), encode(8.0));
    assert_eq!(encode(2.0).powi(-3), encode(0.125));
    assert_eq!(encode(0.5).powi(-2), encode(4.0));
    assert_eq!(encode(-2.0).powi(3), encode(-8.0));
    assert_eq!(encode(-2.0).powi(2), encode(4.0));
    assert_eq!(encode(-2.0).powi(-3), encode(-0.125));
    assert_eq!(encode(3.0).powi(4), encode(81.0));
    assert_eq!(encode(10.0).powi(6), encode(1.0e6));
    assert_eq!(PseudoDouble(0).powi(5), PseudoDouble(0));
    assert_eq!(pd_one().powi(i32::MAX), pd_one());
    assert_eq!(pd_one().powi(i32::MIN), pd_one());
    for (b, n) in [(1.5, 7), (0.3, 5), (-1.1, 9), (7.25, -3), (-0.9, -12), (2.0, 64), (2.0, -64)] {
        let got = decode(encode(b).powi(n));
        assert!(close(got, f64::powi(b, n), 1e-9), "{} to the power {}", b, n);
        assert!(encode(b).powi(n).is_well_formed());
    }
}

#[test]
fn sign_and_size_helpers() {
    let x = encode(-2.5);
    let y = encode(4.0);
    assert_eq!(x.abs(), encode(2.5));
    assert_eq!(y.abs(), y);
    assert_eq!(x.signum(), pd_neg_one());
    assert_eq!(y.signum(), pd_one());
    assert_eq!(PseudoDouble(0).signum(), PseudoDouble(0));
    assert!(x.is_negative() && !x.is_positive() && !x.is_zero());
    assert!(y.is_positive() && !y.is_negative());
    assert!(PseudoDouble(0).is_zero());
    assert!(x.is_finite());
    assert_eq!(x.abs_sub(&y), encode(6.5));
    assert_eq!(x.copysign(y), encode(2.5));
    assert_eq!(y.copysign(x), encode(-4.0));
    assert_eq!(y.copysign(y), y);
    assert_eq!(x.clamp(encode(-1.0), encode(1.0)), encode(-1.0));
    assert_eq!(y.clamp(encode(-1.0), encode(1.0)), encode(1.0));
    assert_eq!(encode(0.5).clamp(encode(-1.0), encode(1.0)), encode(0.5));
    assert_eq!(x.mul_add(y, encode(1.0)), encode(-9.0));
    assert_eq!(encode(3.0).hypot(y), encode(5.0));
    assert_eq!(y.recip(), encode(0.25));
    assert_eq!(y.try_sqrt(), Some(encode(2.0)));
    assert_eq!(x.try_sqrt(), None);
    assert_eq!(x.modulus_squared(), encode(6.25));
    assert_eq!(x.argument(), PseudoDouble(PD_PI_BITS));
    assert_eq!(y.argument(), PseudoDouble(0));
    assert_eq!(encode(7.5).rem(encode(2.0)), encode(1.5));
    assert_eq!(encode(-7.5).rem(encode(2.0)), encode(-1.5));
    assert_eq!(encode(7.5) % encode(2.0), encode(1.5));
}

#[test]
fn approximate_comparisons() {
    let eps = PseudoDouble::default_epsilon();
    assert_eq!(decode(eps), 2f64.powi(-46));
    assert_eq!(PseudoDouble::default_max_ulps(), 4);
    let a = encode(1.0);
    let b = encode(1.0 + 1.0e-15);
    let c = encode(1.001);
    assert!(a.abs_diff_eq(&b, eps));
    assert!(!a.abs_diff_eq(&c, eps));
    assert!(a.abs_diff_eq(&c, encode(0.01)));
    assert!(a.relative_eq(&a, eps, eps));
    assert!(a.relative_eq(&b, eps, eps));
    assert!(!a.relative_eq(&c, eps, eps));
    assert!(encode(1.0e9).relative_eq(&encode(1.0e9 + 1.0), eps, encode(1.0e-6)));
    assert!(!encode(1.0e9).relative_eq(&encode(1.0e9 + 1.0), eps, eps));
    assert!(a.ulps_eq(&b, eps, 4));
    assert!(!a.ulps_eq(&c, eps, 4));
    assert!(!a.ulps_eq(&encode(-1.0), eps, 4));
    assert!(a.ulps_eq(&PseudoDouble(a.0 + (3 << 48)), eps, 4));
    assert!(PseudoDouble(a.0 + (3 << 48)).ulps_eq(&a, eps, 4));
    assert!(!a.ulps_eq(&PseudoDouble(a.0 + (5 << 48)), eps, 4));
    assert!(!a.ulps_eq(&PseudoDouble(a.0 + 0x20000), eps, 4));
}

#[test]
fn constants() {
    let pi = std::f64::consts::PI;
    assert!(close(decode(PseudoDouble::pi()), pi, 1e-13));
    assert!(close(decode(PseudoDouble::two_pi()), 2.0 * pi, 1e-13));
    assert!(close(decode(PseudoDouble::frac_pi_2()), pi / 2.0, 1e-13));
    assert!(close(decode(PseudoDouble::frac_pi_3()), pi / 3.0, 1e-13));
    assert!(close(decode(PseudoDouble::frac_pi_4()), pi / 4.0, 1e-13));
    assert!(close(decode(PseudoDouble::frac_pi_6()), pi / 6.0, 1e-13));
    assert!(close(decode(PseudoDouble::frac_pi_8()), pi / 8.0, 1e-13));
    assert!(close(decode(PseudoDouble::frac_1_pi()), 1.0 / pi, 1e-13));
    assert!(close(decode(PseudoDouble::frac_2_pi()), 2.0 / pi, 1e-13));
    assert!(close(decode(PseudoDouble::e()), std::f64::consts::E, 1e-12));
    assert!(close(decode(PseudoDouble::ln_2()), std::f64::consts::LN_2, 1e-12));
    assert!(close(decode(PseudoDouble::ln_10()), std::f64::consts::LN_10, 1e-12));
    assert_eq!(PseudoDouble(PD_TWO_BITS), PseudoDouble::from_i64(2));
    assert_eq!(PseudoDouble(PD_SIX_BITS), PseudoDouble::from_i64(6));
    assert_eq!(PseudoDouble(PD_TEN_BITS), PseudoDouble::from_i64(10));
    assert_eq!(PseudoDouble::pi().0, PD_PI_BITS);
    assert_eq!(PseudoDouble::two_pi().0, PD_TAU_BITS);
}
