//! The layout invariant through the operations: constructors establish it,
//! and arithmetic and rounding keep it as long as the exponent stays within
//! its field.

use vstd::prelude::*;
use vstd::arithmetic::power2::{pow2, lemma_pow2_pos, lemma_pow2_adds, lemma2_to64};
use crate::bits::{two62, two63, two64, wrap64, mul_hi, trunc_div, lead_bits, lemma_lead_bits, lemma_pow2_monotonic, lemma_wrap64_id};
use crate::pseudo_double::{PseudoDouble, assemble, trunc16, encode_int, encode_nat, lemma_assemble};
use crate::arith::{round_up15, align, finish_sum, sum_in_range, fits_exponent};
use crate::laws::{lemma_sign, lemma_neg_exact, lemma_floor_below, lemma_ceil_above};

verus! {

/// A value that does not exceed the exponent range is assembled into a
/// well-formed word.
#[verifier::spinoff_prover]
#[verifier::rlimit(40)]
pub proof fn lemma_assemble_wf(v: int, base: int)
    requires
        -two63() <= v < two63(),
        fits_exponent(v, base),
    ensures
        assemble(v, base).wf(),
{
    if v != 0 && base - (lead_bits(v) - 1) >= 0 {
        lemma_assemble(v, base);
    }
}

/// Every signed integer is encoded as a well-formed word.
#[verifier::spinoff_prover]
#[verifier::rlimit(40)]
pub proof fn lemma_encode_int_wf(n: int)
    requires
        -two63() <= n < two63(),
    ensures
        encode_int(n).wf(),
{
    if n != 0 {
        lemma_lead_bits(n);
    }
    lemma_assemble_wf(n, 32832);
}

/// Every unsigned integer is encoded as a well-formed word.
#[verifier::spinoff_prover]
#[verifier::rlimit(40)]
pub proof fn lemma_encode_nat_wf(n: int)
    requires
        0 <= n < two64(),
    ensures
        encode_nat(n).wf(),
{
    if n < two63() {
        lemma_encode_int_wf(n);
    } else {
        let h = n / 2;
        let t = trunc16(h);
        assert(two62() <= t < two63());
        lemma_wrap64_id(t + 32833);
        assert(encode_nat(n).0 == t + 32833);
        assert(encode_nat(n).mant() == t);
    }
}

/// The product of any two words is well-formed unless it exceeds the
/// exponent range.
#[verifier::spinoff_prover]
#[verifier::rlimit(40)]
pub proof fn lemma_mul_wf(x: PseudoDouble, y: PseudoDouble)
    requires
        x.mul_in_range(y),
    ensures
        x.spec_mul(y).wf(),
{
    let a = x.mant();
    let b = y.mant();
    assert(-two63() * two63() <= a * b <= two63() * two63()) by (nonlinear_arith)
        requires
            -two63() <= a < two63(),
            -two63() <= b < two63(),
    ;
    lemma_assemble_wf(mul_hi(a, b), x.expo() + y.expo() - 32768);
}

/// The quotient of any two words is well-formed unless it exceeds the
/// exponent range.
#[verifier::spinoff_prover]
#[verifier::rlimit(40)]
pub proof fn lemma_div_wf(x: PseudoDouble, y: PseudoDouble)
    requires
        x.div_in_range(y),
    ensures
        x.spec_div(y).wf(),
{
    let v = wrap64(trunc_div((x.mant() / 4) * two64(), y.mant()));
    lemma_wrap64_id(trunc_div((x.mant() / 4) * two64(), y.mant()));
    lemma_assemble_wf(v, 2 + x.expo() - y.expo() + 32768);
}

/// A rounded sum that has a word of its own is packed into a well-formed
/// word.
#[verifier::spinoff_prover]
#[verifier::rlimit(40)]
proof fn lemma_finish_sum_wf(vr: int, exp_max: int)
    requires
        -two63() <= vr < two63(),
        sum_in_range(vr, exp_max),
    ensures
        finish_sum(vr, exp_max).wf(),
{
    if vr != 0 {
        lemma_assemble(vr, exp_max);
        assert(finish_sum(vr, exp_max) == assemble(vr, exp_max));
    }
}

/// Half a mantissa moved down stays within 63 bits.
#[verifier::spinoff_prover]
#[verifier::rlimit(40)]
pub proof fn lemma_align_bound(m: int, d: int)
    requires
        -two63() <= m <= two63() - 65536,
        m % 65536 == 0,
    ensures
        -two62() <= align(m, d) <= two62() - 32768,
{
    if d > 0 {
        lemma_pow2_pos(d as nat);
        let p = pow2(d as nat) as int;
        let h = m / 2;
        assert(-two62() <= h / p <= two62() - 32768) by (nonlinear_arith)
            requires
                -two62() <= h <= two62() - 32768,
                p >= 1,
        ;
    }
}

/// The sum of two well-formed words is well-formed as long as it stays
/// within the exponent range.
#[verifier::spinoff_prover]
#[verifier::rlimit(40)]
pub proof fn lemma_add_wf(x: PseudoDouble, y: PseudoDouble)
    requires
        x.wf(),
        y.wf(),
        x.add_in_range(y),
    ensures
        x.spec_add(y).wf(),
{
    let d = y.expo() - x.expo();
    if -63 < d < 63 {
        lemma_align_bound(x.mant(), d);
        lemma_align_bound(y.mant(), -d);
        let s = align(x.mant(), d) + align(y.mant(), -d);
        lemma_finish_sum_wf(round_up15(s), if d >= 0 { y.expo() + 1 } else { x.expo() + 1 });
    }
}

/// The difference of two well-formed words is well-formed as long as it
/// stays within the exponent range.
#[verifier::spinoff_prover]
#[verifier::rlimit(40)]
pub proof fn lemma_sub_wf(x: PseudoDouble, y: PseudoDouble)
    requires
        x.wf(),
        y.wf(),
        x.sub_in_range(y),
    ensures
        x.spec_sub(y).wf(),
{
    let d = y.expo() - x.expo();
    if -63 < d < 63 {
        lemma_align_bound(x.mant(), d);
        lemma_align_bound(y.mant(), -d);
        let s = align(x.mant(), d) - align(y.mant(), -d);
        lemma_finish_sum_wf(round_up15(s), if d >= 0 { y.expo() + 1 } else { x.expo() + 1 });
    } else if d >= 63 {
        lemma_sign(y);
        lemma_neg_exact(y);
    }
}

/// The absolute value of a well-formed word is well-formed, unless it is
/// the mantissa `-2^63` at the top exponent.
#[verifier::spinoff_prover]
#[verifier::rlimit(40)]
pub proof fn lemma_abs_wf(x: PseudoDouble)
    requires
        x.wf(),
        !(x.mant() == -two63() && x.expo() == 65535),
    ensures
        x.spec_abs().wf(),
        x.spec_abs().0 >= 0,
        x.spec_abs().scaled() == (if x.scaled() < 0 { -x.scaled() } else { x.scaled() }),
{
    lemma_sign(x);
    if x.0 < 0 {
        lemma_neg_exact(x);
        lemma_sign(x.spec_neg());
    }
}

/// Rounding towards zero keeps a well-formed word well-formed, and does not
/// move it away from zero.
#[verifier::spinoff_prover]
#[verifier::rlimit(40)]
pub proof fn lemma_trunc_wf(x: PseudoDouble)
    requires
        x.wf(),
    ensures
        x.spec_trunc().wf(),
        x.0 >= 0 ==> x.spec_trunc().scaled() <= x.scaled(),
        x.0 < 0 ==> x.scaled() <= x.spec_trunc().scaled(),
{
    lemma_floor_below(x);
    lemma_ceil_above(x);
}

/// Scaling by a power of two is exact: the result is well-formed and its
/// value is the value times `2^y`, as long as the exponent stays within its
/// field.
#[verifier::spinoff_prover]
#[verifier::rlimit(40)]
pub proof fn lemma_ldexp_exact(x: PseudoDouble, y: int)
    requires
        x.wf(),
        0 <= x.expo() + y <= 65535,
    ensures
        x.spec_ldexp(y).wf(),
        y >= 0 ==> x.spec_ldexp(y).scaled() == x.scaled() * pow2(y as nat),
        y < 0 ==> x.spec_ldexp(y).scaled() * pow2((-y) as nat) == x.scaled(),
{
    lemma_sign(x);
    if x.0 != 0 {
        let m = x.mant();
        let e = x.expo();
        lemma_wrap64_id(x.0 + y);
        let r = x.spec_ldexp(y);
        assert(r.0 == m + (e + y));
        assert(r.mant() == m && r.expo() == e + y);
        if y >= 0 {
            lemma_pow2_adds(e as nat, y as nat);
            assert(m * (pow2(e as nat) * pow2(y as nat)) == (m * pow2(e as nat)) * pow2(y as nat))
                by (nonlinear_arith);
        } else {
            lemma_pow2_adds((e + y) as nat, (-y) as nat);
            assert(m * (pow2((e + y) as nat) * pow2((-y) as nat)) == (m * pow2((e + y) as nat))
                * pow2((-y) as nat)) by (nonlinear_arith);
        }
    } else {
        assert(0 * pow2(0) == 0);
        if y >= 0 {
            assert(0 * pow2(y as nat) == 0);
        } else {
            assert(0 * pow2((-y) as nat) == 0);
        }
    }
}

/// The absolute value of a well-formed word that is not zero is a positive
/// word with a normalized positive mantissa.
#[verifier::spinoff_prover]
#[verifier::rlimit(40)]
proof fn lemma_abs_positive(x: PseudoDouble)
    requires
        x.wf(),
        x.0 != 0,
    ensures
        x.spec_abs().0 > 0,
        two62() <= x.spec_abs().mant() < two63(),
{
    lemma_sign(x);
    if x.0 < 0 {
        let m = x.mant();
        let e = x.expo();
        if m == -two63() {
            lemma_wrap64_id(two62() + e + 1);
        } else {
            lemma_wrap64_id(-m + e);
            assert(trunc16(-m) == -m);
        }
    }
}

/// The ratio of a positive well-formed word to one that is not smaller lies
/// between zero and one.
#[verifier::spinoff_prover]
#[verifier::rlimit(40)]
proof fn lemma_ratio_bound(num: PseudoDouble, den: PseudoDouble)
    requires
        num.0 > 0,
        den.0 > 0,
        two62() <= num.mant() < two63(),
        two62() <= den.mant() < two63(),
        num.spec_le(den),
    ensures
        0 <= num.ratio62(den) <= two62(),
{
    if num.0 != den.0 {
        let a = num.mant() / 4;
        let b = den.mant();
        let n = a * two64();
        let q = n / b;
        assert(0 <= n < two63() * b) by (nonlinear_arith)
            requires
                n == a * two64(),
                0 <= a < 0x2000_0000_0000_0000,
                b >= two62(),
        ;
        assert(0 <= q < two63()) by (nonlinear_arith)
            requires
                q == n / b,
                0 <= n < two63() * b,
                b > 0,
        ;
        lemma_wrap64_id(q);
        let k = (den.expo() - num.expo()) as nat;
        lemma_pow2_pos(k);
        let p = pow2(k) as int;
        if den.expo() == num.expo() {
            lemma2_to64();
            assert(num.mant() < den.mant());
            assert(q < two62()) by (nonlinear_arith)
                requires
                    q == n / b,
                    n == a * two64(),
                    4 * a < b,
                    b > 0,
                    a >= 0,
            ;
        } else {
            lemma_pow2_monotonic(1, k);
            lemma2_to64();
            assert(0 <= q / p <= two62()) by (nonlinear_arith)
                requires
                    0 <= q < two63(),
                    p >= 2,
            ;
        }
    }
}

/// The two-argument arctangent can be taken of all well-formed arguments.
#[verifier::spinoff_prover]
#[verifier::rlimit(40)]
pub proof fn lemma_atan2_defined(y: PseudoDouble, x: PseudoDouble)
    requires
        y.wf(),
        x.wf(),
    ensures
        y.atan2_defined(x),
{
    if y.0 != 0 && x.0 != 0 {
        lemma_abs_positive(y);
        lemma_abs_positive(x);
        let (num, den, offset, negative) = y.octant(x);
        lemma_ratio_bound(num, den);
    }
}

/// What a word decodes to fits the integer type it is decoded into, so the
/// conversions to `i64` and `u64` give `decode_int` and `decode_nat`
/// themselves.
#[verifier::spinoff_prover]
#[verifier::rlimit(40)]
pub proof fn lemma_decode_range(x: PseudoDouble)
    ensures
        -two63() <= x.decode_int() < two63(),
        0 <= x.decode_nat() < two64(),
        x.decode_int() as i64 == x.decode_int(),
        x.decode_nat() as u64 == x.decode_nat(),
{
    let m = x.mant();
    let e = x.unbiased();
    if x.0 != 0 && 0 < e <= 64 {
        let p = pow2((64 - e) as nat) as int;
        lemma_pow2_pos((64 - e) as nat);
        let q = m / p;
        vstd::arithmetic::div_mod::lemma_fundamental_div_mod(m, p);
        vstd::arithmetic::div_mod::lemma_mod_bound(m, p);
        assert(-two63() <= q < two63() && (m >= 0 ==> q >= 0)) by (nonlinear_arith)
            requires
                m == p * q + m % p,
                0 <= m % p < p,
                p >= 1,
                -two63() <= m < two63(),
        ;
    }
}

/// A normalized mantissa packed with an exponent within its field is a
/// well-formed word with that mantissa, less its low bits, and that exponent.
#[verifier::spinoff_prover]
#[verifier::rlimit(40)]
pub proof fn lemma_pack_wf(m: int, e: int)
    requires
        crate::pseudo_double::normal_mantissa(m),
        0 <= e <= 65535,
    ensures
        crate::pseudo_double::pack(m, e).wf(),
        crate::pseudo_double::pack(m, e).expo() == e,
        crate::pseudo_double::pack(m, e).mant() == trunc16(m),
        crate::pseudo_double::pack(m, e).0 != 0,
        (crate::pseudo_double::pack(m, e).0 > 0) == (m > 0),
{
    crate::pseudo_double::lemma_pack(m, e);
    let q = m / 65536;
    vstd::arithmetic::div_mod::lemma_fundamental_div_mod(m, 65536);
    vstd::arithmetic::div_mod::lemma_mod_bound(m, 65536);
    assert(trunc16(m) == 65536 * q);
    assert(two62() == 65536 * 0x4000_0000_0000);
    assert(two63() == 65536 * 0x8000_0000_0000);
}

/// What is assembled with a base exponent within the field is well-formed,
/// and its exponent field is at most 63 below the base, unless it is zero.
#[verifier::spinoff_prover]
#[verifier::rlimit(40)]
pub proof fn lemma_assemble_expo(v: int, base: int)
    requires
        -two63() <= v < two63(),
        0 <= base <= 65535,
    ensures
        assemble(v, base).wf(),
        assemble(v, base).0 == 0 || (base - 63 <= assemble(v, base).expo() <= base && assemble(
            v,
            base,
        ).mant() != 0),
        v > 0 ==> assemble(v, base).0 >= 0,
        v < 0 ==> assemble(v, base).0 <= 0,
        v != 0 && base >= 63 ==> assemble(v, base).0 != 0,
{
    if v != 0 {
        lemma_lead_bits(v);
        if base - (lead_bits(v) - 1) >= 0 {
            lemma_assemble(v, base);
            lemma_sign(assemble(v, base));
        }
    }
}

/// A product whose exponents add up within the field does not exceed the
/// exponent range.
#[verifier::spinoff_prover]
#[verifier::rlimit(40)]
pub proof fn lemma_mul_fits(x: PseudoDouble, y: PseudoDouble)
    requires
        x.expo() + y.expo() - 32768 <= 65535,
    ensures
        x.mul_in_range(y),
        x.spec_mul(y).wf(),
{
    let a = x.mant();
    let b = y.mant();
    assert(-two63() * two63() <= a * b <= two63() * two63()) by (nonlinear_arith)
        requires
            -two63() <= a < two63(),
            -two63() <= b < two63(),
    ;
    lemma_lead_bits(mul_hi(a, b));
    lemma_mul_wf(x, y);
}

/// A quotient whose exponents differ little enough does not exceed the
/// exponent range.
#[verifier::spinoff_prover]
#[verifier::rlimit(40)]
pub proof fn lemma_div_fits(x: PseudoDouble, y: PseudoDouble)
    requires
        2 + x.expo() - y.expo() + 32768 <= 65535,
    ensures
        x.div_in_range(y),
        x.spec_div(y).wf(),
{
    let q = trunc_div((x.mant() / 4) * two64(), y.mant());
    lemma_wrap64_id(q);
    lemma_lead_bits(wrap64(q));
    lemma_div_wf(x, y);
}

/// The mantissa of a logarithm with the integer part `e` other than zero and
/// minus one: the integer part moved up to fill the word, with a fraction
/// below one put under it, is normalized.
#[verifier::spinoff_prover]
#[verifier::rlimit(40)]
pub proof fn lemma_log2_mantissa(e: int, log_frac: int)
    requires
        -0x1_0000 <= e <= 0x1_0000,
        e != 0,
        e != -1,
        0 <= log_frac < two63(),
    ensures
        ({
            let lb = lead_bits(e);
            let m = wrap64(
                e * pow2((lb - 1) as nat) + wrap64(log_frac) / (pow2((64 - lb) as nat) as int),
            );
            crate::pseudo_double::normal_mantissa(m) && (m >= 0) == (e > 0)
        }),
{
    lemma2_to64();
    vstd::arithmetic::power2::lemma2_to64_rest();
    lemma_lead_bits(e);
    crate::bits::lemma_bit_len_upper(if e < 0 { (-e - 1) as nat } else { e as nat }, 17);
    let lb = lead_bits(e);
    assert(47 <= lb <= 63);
    let p = pow2((lb - 1) as nat) as int;
    let g = pow2((64 - lb) as nat) as int;
    let t = pow2((63 - lb) as nat) as int;
    lemma_pow2_pos((lb - 1) as nat);
    lemma_pow2_pos((64 - lb) as nat);
    lemma_pow2_pos((63 - lb) as nat);
    lemma_pow2_adds((lb - 1) as nat, (64 - lb) as nat);
    lemma_pow2_adds((lb - 1) as nat, (63 - lb) as nat);
    assert(p * g == two63());
    assert(p * t == two62());
    lemma_wrap64_id(log_frac);
    let lo = log_frac / g;
    assert(0 <= lo < p) by (nonlinear_arith)
        requires
            lo == log_frac / g,
            0 <= log_frac < p * g,
            g > 0,
            p > 0,
    ;
    let hi = e * p;
    if e > 0 {
        assert(e < g) by (nonlinear_arith)
            requires
                e * p < p * g,
                p > 0,
        ;
        assert(e * p <= (g - 1) * p) by (nonlinear_arith)
            requires
                e <= g - 1,
                p > 0,
        ;
        assert((g - 1) * p == p * g - p) by (nonlinear_arith);
    } else {
        assert(e < -t) by (nonlinear_arith)
            requires
                e * p < -(p * t),
                p > 0,
        ;
        assert(e * p <= (-t - 1) * p) by (nonlinear_arith)
            requires
                e <= -t - 1,
                p > 0,
        ;
        assert((-t - 1) * p == -(p * t) - p) by (nonlinear_arith);
    }
    lemma_wrap64_id(hi + lo);
}

/// A quotient whose exponent base is within the field is well-formed, with
/// an exponent field at most 63 below the base unless it is zero.
#[verifier::spinoff_prover]
#[verifier::rlimit(40)]
pub proof fn lemma_div_expo(x: PseudoDouble, y: PseudoDouble)
    requires
        2 + x.expo() - y.expo() + 32768 <= 65535,
        x.mant() == 0 || 0 <= 2 + x.expo() - y.expo() + 32768,
        y.mant() != 0,
    ensures
        x.spec_div(y).wf(),
        x.div_in_range(y),
        x.spec_div(y).0 == 0 || (x.expo() - y.expo() + 32707 <= x.spec_div(y).expo() <= 2 + x.expo()
            - y.expo() + 32768),
{
    let n = (x.mant() / 4) * two64();
    let b = y.mant();
    let q = trunc_div(n, b);
    lemma_wrap64_id(q);
    lemma_div_fits(x, y);
    if x.mant() == 0 {
        assert(n == 0);
        let ab = if b < 0 { -b } else { b };
        assert(0int / ab == 0) by (nonlinear_arith)
            requires
                ab > 0,
        ;
        assert(q == 0);
        assert(x.spec_div(y) == PseudoDouble(0));
    } else {
        lemma_assemble_expo(wrap64(q), 2 + x.expo() - y.expo() + 32768);
    }
}

/// The sum of two well-formed words whose exponent fields are at least 64,
/// where they are not zero, stays within the exponent range; its exponent
/// field is at most one above the larger.
#[verifier::spinoff_prover]
#[verifier::rlimit(40)]
pub proof fn lemma_add_fits(x: PseudoDouble, y: PseudoDouble)
    requires
        x.wf(),
        y.wf(),
        x.0 == 0 || x.expo() >= 64,
        y.0 == 0 || y.expo() >= 64,
        x.expo() <= 65534,
        y.expo() <= 65534,
    ensures
        x.add_in_range(y),
        x.spec_add(y).wf(),
        x.spec_add(y).0 == 0 || x.spec_add(y).expo() <= (if x.expo() >= y.expo() {
            x.expo()
        } else {
            y.expo()
        }) + 1,
{
    lemma_sign(x);
    lemma_sign(y);
    let d = y.expo() - x.expo();
    if -63 < d < 63 {
        let exp_max = if d >= 0 { y.expo() + 1 } else { x.expo() + 1 };
        lemma_align_bound(x.mant(), d);
        lemma_align_bound(y.mant(), -d);
        let s = align(x.mant(), d) + align(y.mant(), -d);
        let vr = round_up15(s);
        if x.0 == 0 && y.0 == 0 {
            assert(align(0, d) == 0) by {
                if d > 0 {
                    lemma_pow2_pos(d as nat);
                    let p = pow2(d as nat) as int;
                    assert(0int / p == 0) by (nonlinear_arith)
                        requires
                            p > 0,
                    ;
                }
            }
            assert(align(0, -d) == 0) by {
                if -d > 0 {
                    lemma_pow2_pos((-d) as nat);
                    let p = pow2((-d) as nat) as int;
                    assert(0int / p == 0) by (nonlinear_arith)
                        requires
                            p > 0,
                    ;
                }
            }
            assert(vr == 0);
        } else {
            assert(x.0 != 0 && y.0 != 0);
            if vr != 0 {
                lemma_lead_bits(vr);
                lemma_assemble_expo(vr, exp_max);
                assert(finish_sum(vr, exp_max) == assemble(vr, exp_max));
            }
        }
        lemma_add_wf(x, y);
    }
}

/// One plus and one minus a well-formed number strictly between minus one
/// and one are well-formed positive words with exponent fields near that of
/// one.
#[verifier::spinoff_prover]
#[verifier::rlimit(60)]
pub proof fn lemma_one_plus_minus(x: PseudoDouble)
    requires
        x.wf(),
        PseudoDouble(crate::pseudo_double::PD_NEG_ONE_BITS).spec_lt(x),
        x.spec_lt(PseudoDouble(crate::pseudo_double::PD_ONE_BITS)),
    ensures
        ({
            let one = PseudoDouble(crate::pseudo_double::PD_ONE_BITS);
            let a = one.spec_add(x);
            let b = one.spec_sub(x);
            &&& a.wf() && a.0 > 0 && 32708 <= a.expo() <= 32771
            &&& b.wf() && b.0 > 0 && 32708 <= b.expo() <= 32771
        }),
{
    lemma2_to64();
    vstd::arithmetic::power2::lemma2_to64_rest();
    lemma_sign(x);
    let one = PseudoDouble(crate::pseudo_double::PD_ONE_BITS);
    let neg_one = PseudoDouble(crate::pseudo_double::PD_NEG_ONE_BITS);
    assert(one.mant() == two62() && one.expo() == 32770);
    assert(neg_one.mant() == -two63() && neg_one.expo() == 32769);
    assert(one.wf());
    assert(x.expo() <= 32769);
    assert(x.expo() == 32769 ==> x.mant() != -two63());
    let d = x.expo() - 32770;
    if d > -63 {
        let k = (-d) as nat;
        let p = pow2(k) as int;
        lemma_pow2_pos(k);
        lemma_pow2_monotonic(1, k);
        let hx = x.mant() / 2;
        let ay = align(x.mant(), -d);
        assert(ay == hx / p);
        assert(align(one.mant(), d) == 0x2000_0000_0000_0000);
        assert(-0x2000_0000_0000_0000 <= ay < 0x2000_0000_0000_0000) by (nonlinear_arith)
            requires
                ay == hx / p,
                -two62() <= hx <= two62() - 32768,
                p >= 2,
        ;
        if ay == -0x2000_0000_0000_0000 {
            if k == 1 {
                assert(p == 2);
                assert(hx >= -two62() + 32768);
                assert(false);
            } else {
                lemma_pow2_monotonic(2, k);
                assert(hx / p >= -0x1000_0000_0000_0000) by (nonlinear_arith)
                    requires
                        -two62() <= hx,
                        p >= 4,
                ;
                assert(false);
            }
        }
        let sa = 0x2000_0000_0000_0000 + ay;
        let sb = 0x2000_0000_0000_0000 - ay;
        let va = round_up15(sa);
        let vb = round_up15(sb);
        vstd::arithmetic::div_mod::lemma_fundamental_div_mod(sa + 32767, 32768);
        vstd::arithmetic::div_mod::lemma_fundamental_div_mod(sb + 32767, 32768);
        assert(sa <= va <= sa + 32767);
        assert(sb <= vb <= sb + 32767);
        lemma_lead_bits(va);
        lemma_lead_bits(vb);
        lemma_assemble_expo(va, 32771);
        lemma_assemble_expo(vb, 32771);
        assert(finish_sum(va, 32771) == assemble(va, 32771));
        assert(finish_sum(vb, 32771) == assemble(vb, 32771));
        assert(one.spec_add(x) == finish_sum(va, 32771));
        assert(one.spec_sub(x) == finish_sum(vb, 32771));
    } else {
        assert(one.spec_add(x) == one);
        assert(one.spec_sub(x) == one);
    }
}

/// The quotient of two positive well-formed words is positive where its
/// exponent stays within the field.
#[verifier::spinoff_prover]
#[verifier::rlimit(60)]
pub proof fn lemma_div_positive(a: PseudoDouble, b: PseudoDouble)
    requires
        a.wf(),
        b.wf(),
        a.0 > 0,
        b.0 > 0,
        63 <= 2 + a.expo() - b.expo() + 32768 <= 65535,
    ensures
        a.spec_div(b).wf(),
        a.spec_div(b).0 > 0,
{
    lemma_sign(a);
    lemma_sign(b);
    let c = a.mant() / 4;
    let n = c * two64();
    let m = b.mant();
    let q = n / m;
    assert(0x2000_0000_0000_0000 * m <= n < two63() * m) by (nonlinear_arith)
        requires
            n == c * two64(),
            0x1000_0000_0000_0000 <= c < 0x2000_0000_0000_0000,
            two62() <= m < two63(),
    ;
    assert(0x2000_0000_0000_0000 <= q < two63()) by (nonlinear_arith)
        requires
            q == n / m,
            0x2000_0000_0000_0000 * m <= n < two63() * m,
            m > 0,
    ;
    lemma_wrap64_id(q);
    assert(trunc_div(n, m) == q);
    lemma_assemble_expo(wrap64(q), 2 + a.expo() - b.expo() + 32768);
}

/// The inverse hyperbolic tangent can be taken of every well-formed number
/// strictly between minus one and one.
#[verifier::spinoff_prover]
#[verifier::rlimit(60)]
pub proof fn lemma_atanh_defined(x: PseudoDouble)
    requires
        x.wf(),
        PseudoDouble(crate::pseudo_double::PD_NEG_ONE_BITS).spec_lt(x),
        x.spec_lt(PseudoDouble(crate::pseudo_double::PD_ONE_BITS)),
    ensures
        x.atanh_defined(),
{
    let one = PseudoDouble(crate::pseudo_double::PD_ONE_BITS);
    lemma_one_plus_minus(x);
    let a = one.spec_add(x);
    let b = one.spec_sub(x);
    lemma_sign(b);
    lemma_div_positive(a, b);
}

/// The square of a well-formed number between minus one and one is one, or
/// a well-formed number that is not negative and below one.
#[verifier::spinoff_prover]
#[verifier::rlimit(60)]
pub proof fn lemma_square_below_one(x: PseudoDouble)
    requires
        x.wf(),
        x.in_unit_interval(),
    ensures
        ({
            let one = PseudoDouble(crate::pseudo_double::PD_ONE_BITS);
            let p = x.spec_mul(x);
            &&& p.wf()
            &&& p == one || (p.0 >= 0 && p.spec_lt(one))
        }),
{
    lemma2_to64();
    vstd::arithmetic::power2::lemma2_to64_rest();
    lemma_sign(x);
    let one = PseudoDouble(crate::pseudo_double::PD_ONE_BITS);
    let neg_one = PseudoDouble(crate::pseudo_double::PD_NEG_ONE_BITS);
    assert(one.mant() == two62() && one.expo() == 32770);
    assert(neg_one.mant() == -two63() && neg_one.expo() == 32769);
    let m = x.mant();
    let ex = x.expo();
    let p = x.spec_mul(x);
    let vr = mul_hi(m, m);
    if x.0 == 0 {
        assert(m * m == 0) by (nonlinear_arith)
            requires
                m == 0,
        ;
        assert(vr == 0);
        assert(p == PseudoDouble(0));
    } else {
        assert(ex <= 32770);
        assert(ex == 32770 ==> m == two62());
        assert(x.0 < 0 ==> ex <= 32769);
        let sq = m * m;
        assert(two62() * two62() <= sq <= two63() * two63() && (m > -two63() ==> sq < two63()
            * two63()) && (m == two62() ==> sq == two62() * two62())) by (nonlinear_arith)
            requires
                sq == m * m,
                two62() <= m < two63() || -two63() <= m < -two62(),
        ;
        assert(0x1000_0000_0000_0000 <= vr <= two62());
        assert(m > -two63() ==> vr < two62());
        assert(m == two62() ==> vr == 0x1000_0000_0000_0000);
        lemma_lead_bits(vr);
        lemma_mul_fits(x, x);
        let lb = lead_bits(vr) - 1;
        let base = 2 * ex - 32768;
        if base - lb >= 0 {
            lemma_assemble(vr, base);
            lemma_sign(p);
            if vr == two62() {
                crate::laws::lemma_lead_bits_unique(vr, 0);
            } else {
                if lb == 0 {
                    assert(vr * pow2(0) == vr);
                    assert(false);
                }
            }
            if m == two62() {
                crate::laws::lemma_lead_bits_unique(vr, 2);
                assert(vr * pow2(2) == two62());
            }
            if p.expo() == 32770 {
                assert(p.mant() == two62());
                assert(p.0 == two62() + 32770);
            }
        } else {
            assert(p == PseudoDouble(0));
        }
    }
}

/// One less the square of a well-formed number between minus one and one is
/// well-formed and not negative.
#[verifier::spinoff_prover]
#[verifier::rlimit(60)]
pub proof fn lemma_one_minus_square(x: PseudoDouble)
    requires
        x.wf(),
        x.in_unit_interval(),
    ensures
        PseudoDouble(crate::pseudo_double::PD_ONE_BITS).spec_sub(x.spec_mul(x)).wf(),
        PseudoDouble(crate::pseudo_double::PD_ONE_BITS).spec_sub(x.spec_mul(x)).0 >= 0,
{
    let one = PseudoDouble(crate::pseudo_double::PD_ONE_BITS);
    let neg_one = PseudoDouble(crate::pseudo_double::PD_NEG_ONE_BITS);
    let p = x.spec_mul(x);
    lemma_square_below_one(x);
    assert(one.mant() == two62() && one.expo() == 32770);
    if p == one {
        lemma2_to64();
        assert(align(two62(), 0) == 0x2000_0000_0000_0000);
        assert(round_up15(0) == 0);
        assert(one.spec_sub(one) == PseudoDouble(0));
    } else {
        assert(neg_one.spec_lt(p));
        lemma_one_plus_minus(p);
    }
}

/// The arcsine and the arccosine can be taken of every well-formed number
/// between minus one and one for which the square-root kernel stays within
/// `[1, 2)`, so that the root is well-formed.
#[verifier::spinoff_prover]
#[verifier::rlimit(60)]
pub proof fn lemma_asin_acos_defined(x: PseudoDouble)
    requires
        x.wf(),
        x.in_unit_interval(),
        PseudoDouble(crate::pseudo_double::PD_ONE_BITS).spec_sub(x.spec_mul(x)).sqrt_in_range(),
    ensures
        x.asin_defined(),
        x.acos_defined(),
{
    let s = PseudoDouble(crate::pseudo_double::PD_ONE_BITS).spec_sub(x.spec_mul(x));
    lemma_one_minus_square(x);
    lemma_sqrt_wf(s);
    lemma_atan2_defined(x, s.spec_sqrt());
    lemma_atan2_defined(s.spec_sqrt(), x);
}

/// The square root of a number that is not negative is well-formed where
/// the kernel stays within its range.
#[verifier::spinoff_prover]
#[verifier::rlimit(60)]
pub proof fn lemma_sqrt_wf(s: PseudoDouble)
    requires
        s.0 >= 0,
        s.sqrt_in_range(),
    ensures
        s.spec_sqrt().wf(),
        s.spec_sqrt().0 >= 0,
{
    let (m, h) = s.root_operand();
    assert(0 <= h <= 32767);
    if s.0 != 0 {
        if s.root_is_exact() {
            crate::pseudo_double::lemma_word_fields(two62(), 16385 + h);
        } else {
            lemma_wrap64_id(s.root_product());
            lemma_pack_wf(s.root_product(), 16385 + h);
        }
    }
}

} // verus!
