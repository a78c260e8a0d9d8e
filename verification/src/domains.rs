//! Where the inverse hyperbolic functions can be taken: on well-formed
//! arguments of their domain the conditions on the intermediate results
//! follow, as far as they do not rest on how close the square-root kernel
//! comes to the root.

use vstd::prelude::*;
use vstd::arithmetic::power2::{pow2, lemma_pow2_pos, lemma2_to64, lemma2_to64_rest};
use crate::bits::{two62, two63, mul_hi, lead_bits, lemma_lead_bits, lemma_pow2_monotonic, lemma_wrap64_id};
use crate::pseudo_double::{PseudoDouble, assemble, lemma_assemble, PD_ONE_BITS};
use crate::arith::{round_up15, align, finish_sum};
use crate::laws::lemma_sign;
use crate::wellformed::{lemma_align_bound, lemma_assemble_expo, lemma_mul_fits, lemma_pack_wf};

verus! {

/// Half a mantissa that is not negative, moved down, is not negative.
#[verifier::spinoff_prover]
#[verifier::rlimit(40)]
proof fn lemma_align_nonneg(m: int, d: int)
    requires
        0 <= m,
    ensures
        0 <= align(m, d),
        d <= 0 ==> align(m, d) == m / 2,
{
    if d > 0 {
        lemma_pow2_pos(d as nat);
        let p = pow2(d as nat) as int;
        let h = m / 2;
        assert(h / p >= 0) by (nonlinear_arith)
            requires
                h >= 0,
                p > 0,
        ;
    }
}

/// The sum of two well-formed numbers that are not negative and not both
/// zero is a well-formed positive number, as long as the larger exponent
/// field is at least 63 and below the top.
#[verifier::spinoff_prover]
#[verifier::rlimit(60)]
pub proof fn lemma_add_nonneg(a: PseudoDouble, b: PseudoDouble)
    requires
        a.wf(),
        b.wf(),
        a.0 >= 0,
        b.0 >= 0,
        a.0 > 0 || b.0 > 0,
        a.expo() >= 63 || b.expo() >= 63,
        a.expo() <= 65534,
        b.expo() <= 65534,
    ensures
        a.spec_add(b).wf(),
        a.spec_add(b).0 > 0,
        a.spec_add(b).expo() <= (if a.expo() >= b.expo() { a.expo() } else { b.expo() }) + 1,
{
    lemma_sign(a);
    lemma_sign(b);
    lemma2_to64();
    let d = b.expo() - a.expo();
    if -63 < d < 63 {
        let exp_max = if d >= 0 { b.expo() + 1 } else { a.expo() + 1 };
        lemma_align_bound(a.mant(), d);
        lemma_align_bound(b.mant(), -d);
        lemma_align_nonneg(a.mant(), d);
        lemma_align_nonneg(b.mant(), -d);
        let ax = align(a.mant(), d);
        let ay = align(b.mant(), -d);
        if d >= 0 {
            assert(b.expo() >= 63);
            assert(b.0 != 0);
            assert(ay >= 0x2000_0000_0000_0000);
        } else {
            assert(a.expo() >= 63);
            assert(a.0 != 0);
            assert(ax >= 0x2000_0000_0000_0000);
        }
        let s = ax + ay;
        let vr = round_up15(s);
        vstd::arithmetic::div_mod::lemma_fundamental_div_mod(s + 32767, 32768);
        assert(s <= vr <= s + 32767);
        lemma_lead_bits(vr);
        lemma_assemble_expo(vr, exp_max);
        assert(finish_sum(vr, exp_max) == assemble(vr, exp_max));
        assert(a.spec_add(b) == finish_sum(vr, exp_max));
    }
}

/// The square of a well-formed number that is not below one is well-formed
/// and not below one, as long as its exponent stays within the field.
#[verifier::spinoff_prover]
#[verifier::rlimit(60)]
pub proof fn lemma_square_at_least_one(x: PseudoDouble)
    requires
        x.wf(),
        !x.spec_lt(PseudoDouble(PD_ONE_BITS)),
        x.expo() <= 49151,
    ensures
        x.0 > 0,
        x.expo() >= 32770,
        x.spec_mul(x).wf(),
        x.spec_mul(x).0 > 0,
        !x.spec_mul(x).spec_lt(PseudoDouble(PD_ONE_BITS)),
        32770 <= x.spec_mul(x).expo() <= 65534,
{
    lemma2_to64();
    lemma2_to64_rest();
    lemma_sign(x);
    let one = PseudoDouble(PD_ONE_BITS);
    assert(one.mant() == two62() && one.expo() == 32770);
    let m = x.mant();
    let ex = x.expo();
    assert(x.0 > 0);
    assert(ex >= 32770);
    let sq = m * m;
    assert(two62() * two62() <= sq < two63() * two63()) by (nonlinear_arith)
        requires
            sq == m * m,
            two62() <= m < two63(),
    ;
    let vr = mul_hi(m, m);
    assert(0x1000_0000_0000_0000 <= vr < two62());
    lemma_lead_bits(vr);
    let lb = (lead_bits(vr) - 1) as nat;
    let pw = pow2(lb) as int;
    lemma_pow2_pos(lb);
    assert(2 <= pw < 8) by (nonlinear_arith)
        requires
            0x1000_0000_0000_0000 <= vr < two62(),
            two62() <= vr * pw < two63(),
            pw > 0,
    ;
    if lb == 0 {
        assert(false);
    }
    if lb > 2 {
        lemma_pow2_monotonic(3, lb);
        assert(false);
    }
    lemma_mul_fits(x, x);
    lemma_assemble(vr, 2 * ex - 32768);
    let p = x.spec_mul(x);
    lemma_sign(p);
    assert(p.expo() == 2 * ex - 32768 - lb);
    assert(p.mant() >= two62());
}

/// A well-formed number that is not below one, less one, is well-formed
/// and not negative.
#[verifier::spinoff_prover]
#[verifier::rlimit(60)]
pub proof fn lemma_sub_one(p: PseudoDouble)
    requires
        p.wf(),
        p.0 > 0,
        !p.spec_lt(PseudoDouble(PD_ONE_BITS)),
        p.expo() <= 65534,
    ensures
        p.spec_sub(PseudoDouble(PD_ONE_BITS)).wf(),
        p.spec_sub(PseudoDouble(PD_ONE_BITS)).0 >= 0,
{
    lemma2_to64();
    lemma2_to64_rest();
    lemma_sign(p);
    let one = PseudoDouble(PD_ONE_BITS);
    assert(one.mant() == two62() && one.expo() == 32770);
    assert(p.expo() >= 32770);
    let d = 32770 - p.expo();
    if d > -63 {
        let exp_max = p.expo() + 1;
        let ax = align(p.mant(), d);
        let ay = align(two62(), -d);
        lemma_align_bound(p.mant(), d);
        lemma_align_nonneg(two62(), -d);
        assert(ax == p.mant() / 2);
        assert(ay <= 0x2000_0000_0000_0000) by {
            if -d > 0 {
                lemma_pow2_pos((-d) as nat);
                let q = pow2((-d) as nat) as int;
                assert(0x2000_0000_0000_0000int / q <= 0x2000_0000_0000_0000) by (nonlinear_arith)
                    requires
                        q >= 1,
                ;
            }
        }
        let s = ax - ay;
        let vr = round_up15(s);
        vstd::arithmetic::div_mod::lemma_fundamental_div_mod(s + 32767, 32768);
        assert(s <= vr <= s + 32767);
        assert(p.spec_sub(one) == finish_sum(vr, exp_max));
        if vr != 0 {
            lemma_lead_bits(vr);
            lemma_assemble_expo(vr, exp_max);
            assert(finish_sum(vr, exp_max) == assemble(vr, exp_max));
        }
    } else {
        assert(p.spec_sub(one) == p);
    }
}

/// The square root of a positive number is a well-formed positive number
/// with an exponent field in the middle of the range, where the kernel
/// stays within its range.
#[verifier::spinoff_prover]
#[verifier::rlimit(60)]
pub proof fn lemma_sqrt_positive(s: PseudoDouble)
    requires
        s.0 > 0,
        s.sqrt_in_range(),
    ensures
        s.spec_sqrt().wf(),
        s.spec_sqrt().0 > 0,
        16385 <= s.spec_sqrt().expo() <= 49152,
{
    let (m, h) = s.root_operand();
    assert(0 <= h <= 32767);
    if s.root_is_exact() {
        crate::pseudo_double::lemma_word_fields(two62(), 16385 + h);
    } else {
        lemma_wrap64_id(s.root_product());
        lemma_pack_wf(s.root_product(), 16385 + h);
    }
}

/// The inverse hyperbolic cosine can be taken of every well-formed number
/// that is not below one and whose square stays within the exponent range,
/// where the square-root kernel stays within `[1, 2)`.
#[verifier::spinoff_prover]
#[verifier::rlimit(60)]
pub proof fn lemma_acosh_defined(x: PseudoDouble)
    requires
        x.wf(),
        !x.spec_lt(PseudoDouble(PD_ONE_BITS)),
        x.expo() <= 49151,
        x.spec_mul(x).spec_sub(PseudoDouble(PD_ONE_BITS)).sqrt_in_range(),
    ensures
        x.acosh_defined(),
{
    let one = PseudoDouble(PD_ONE_BITS);
    lemma_square_at_least_one(x);
    let p = x.spec_mul(x);
    lemma_sub_one(p);
    let s = p.spec_sub(one);
    if s.0 == 0 {
        assert(s.spec_sqrt() == s);
        assert(s.expo() == 0);
    } else {
        lemma_sqrt_positive(s);
    }
    lemma_add_nonneg(x, s.spec_sqrt());
}

/// The inverse hyperbolic sine can be taken of every well-formed number
/// that is not negative and whose square stays within the exponent range,
/// where the square-root kernel stays within `[1, 2)`.
#[verifier::spinoff_prover]
#[verifier::rlimit(60)]
pub proof fn lemma_asinh_defined(x: PseudoDouble)
    requires
        x.wf(),
        x.0 >= 0,
        x.expo() <= 49151,
        x.square_plus(PseudoDouble(PD_ONE_BITS)).sqrt_in_range(),
    ensures
        x.asinh_defined(),
{
    lemma2_to64();
    lemma_sign(x);
    let one = PseudoDouble(PD_ONE_BITS);
    assert(one.mant() == two62() && one.expo() == 32770);
    assert(one.wf());
    let m = x.mant();
    let p = x.spec_mul(x);
    lemma_mul_fits(x, x);
    let vr = mul_hi(m, m);
    let sq = m * m;
    assert(0 <= sq <= two63() * two63()) by (nonlinear_arith)
        requires
            sq == m * m,
            0 <= m < two63(),
    ;
    assert(0 <= vr < two63());
    let base = 2 * x.expo() - 32768;
    if vr != 0 {
        lemma_lead_bits(vr);
        if base - (lead_bits(vr) - 1) >= 0 {
            lemma_assemble_expo(vr, base);
        }
    }
    lemma_sign(p);
    assert(p.0 >= 0);
    lemma_add_nonneg(p, one);
    let s = p.spec_add(one);
    lemma_sqrt_positive(s);
    lemma_add_nonneg(x, s.spec_sqrt());
}

} // verus!
