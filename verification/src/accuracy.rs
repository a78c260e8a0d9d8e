//! How close the arithmetic comes to the exact results: each operation on
//! well-formed words, where the result stays within the exponent range, is
//! within a stated fraction of the exact value.

use vstd::prelude::*;
use vstd::arithmetic::power2::{pow2, lemma_pow2_pos, lemma_pow2_adds, lemma2_to64, lemma2_to64_rest};
use crate::bits::{two62, two63, two64, wrap64, mul_hi, trunc_div, lead_bits, lemma_lead_bits, lemma_pow2_monotonic, lemma_wrap64_id};
use crate::pseudo_double::{PseudoDouble, assemble, trunc16, normal_mantissa, lemma_assemble};
use crate::arith::{round_up15, align, finish_sum, sum_in_range};
use crate::laws::{unit, lemma_sign};
use crate::wellformed::lemma_align_bound;

verus! {

/// The product of two normalized mantissas, cut to its high word, normalized
/// and cut to 48 bits, is not above the exact product and less than
/// `2^64 + 2^80` below it.
#[verifier::spinoff_prover]
#[verifier::rlimit(40)]
proof fn lemma_mul_mantissa(a: int, b: int)
    requires
        normal_mantissa(a),
        normal_mantissa(b),
    ensures
        ({
            let vr = mul_hi(a, b);
            let lb = (lead_bits(vr) - 1) as nat;
            let t = trunc16(vr * pow2(lb));
            &&& vr != 0
            &&& -two63() <= vr < two63()
            &&& 0 <= lead_bits(vr) - 1 <= 3
            &&& t * pow2((64 - lb) as nat) <= a * b
            &&& a * b - t * pow2((64 - lb) as nat) < 0x1_0001_0000_0000_0000_0000
            &&& a * b >= 0x1000_0000_0000_0000_0000_0000_0000_0000 || a * b
                <= -0x1000_0000_0000_0000_0000_0000_0000_0000
        }),
{
    lemma2_to64();
    lemma2_to64_rest();
    let q = a * b;
    let vr = mul_hi(a, b);
    assert(-two63() * two63() <= q <= two63() * two63() && (q >= two62() * two62() || q <= -(two62()
        * two62()))) by (nonlinear_arith)
        requires
            q == a * b,
            normal_mantissa(a),
            normal_mantissa(b),
    ;
    vstd::arithmetic::div_mod::lemma_fundamental_div_mod(q, two64());
    vstd::arithmetic::div_mod::lemma_mod_bound(q, two64());
    assert(vr * two64() <= q < vr * two64() + two64());
    assert(vr >= 0x1000_0000_0000_0000 || vr <= -0x1000_0000_0000_0000);
    lemma_lead_bits(vr);
    let lb = (lead_bits(vr) - 1) as nat;
    let p = pow2(lb) as int;
    lemma_pow2_pos(lb);
    assert(p <= 8) by (nonlinear_arith)
        requires
            vr >= 0x1000_0000_0000_0000 || vr <= -0x1000_0000_0000_0000,
            -two63() <= vr * p < two63(),
            p > 0,
    ;
    if lb > 3 {
        lemma_pow2_monotonic(4, lb);
    }
    let h = pow2((64 - lb) as nat) as int;
    lemma_pow2_adds(lb, (64 - lb) as nat);
    lemma_pow2_monotonic((64 - lb) as nat, 64);
    let t = trunc16(vr * p);
    assert(t <= vr * p < t + 65536);
    assert(t * h <= q && q - t * h < two64() + 65536 * two64()) by (nonlinear_arith)
        requires
            t <= vr * p < t + 65536,
            p * h == two64(),
            0 < h <= two64(),
            p > 0,
            vr * two64() <= q < vr * two64() + two64(),
    ;
}

/// Multiplication is accurate: the product of two well-formed words that
/// are not zero, where it stays within the exponent range, is not above the
/// exact product of their values, and below it by less than `2^-43` of its
/// magnitude.
#[verifier::spinoff_prover]
#[verifier::rlimit(40)]
pub proof fn lemma_mul_accuracy(x: PseudoDouble, y: PseudoDouble)
    requires
        x.wf(),
        y.wf(),
        x.0 != 0,
        y.0 != 0,
        0 <= x.expo() + y.expo() - 32768 - (lead_bits(mul_hi(x.mant(), y.mant())) - 1) <= 65535,
    ensures
        x.spec_mul(y).wf(),
        x.spec_mul(y).scaled() * unit() <= x.scaled() * y.scaled(),
        (x.scaled() * y.scaled() - x.spec_mul(y).scaled() * unit()) * 0x800_0000_0000 <= (if x.scaled()
            * y.scaled() < 0 {
            -(x.scaled() * y.scaled())
        } else {
            x.scaled() * y.scaled()
        }),
{
    lemma_sign(x);
    lemma_sign(y);
    let a = x.mant();
    let b = y.mant();
    let ex = x.expo() as nat;
    let ey = y.expo() as nat;
    let vr = mul_hi(a, b);
    lemma_mul_mantissa(a, b);
    let lb = (lead_bits(vr) - 1) as nat;
    let base = ex + ey - 32768;
    lemma_assemble(vr, base);
    let r = x.spec_mul(y);
    let t = trunc16(vr * pow2(lb));
    assert(r.mant() == t && r.expo() == base - lb);
    let s = pow2(ex + ey) as int;
    let h = pow2((64 - lb) as nat) as int;
    let pr = pow2((base - lb) as nat) as int;
    let u = unit();
    lemma_pow2_pos(ex + ey);
    lemma_pow2_adds(ex, ey);
    lemma_pow2_adds((base - lb) as nat, 32832);
    lemma_pow2_adds(ex + ey, (64 - lb) as nat);
    assert(pr * u == s * h);
    let px = pow2(ex) as int;
    let py = pow2(ey) as int;
    let q = a * b;
    let exact = x.scaled() * y.scaled();
    let got = r.scaled() * u;
    assert(exact == q * s) by (nonlinear_arith)
        requires
            exact == (a * px) * (b * py),
            q == a * b,
            s == px * py,
    ;
    assert(got == (t * h) * s) by (nonlinear_arith)
        requires
            got == (t * pr) * u,
            pr * u == s * h,
    ;
    let d = q - t * h;
    assert(exact - got == d * s) by (nonlinear_arith)
        requires
            exact == q * s,
            got == (t * h) * s,
            d == q - t * h,
    ;
    assert(d * s >= 0 && (d * s) * 0x800_0000_0000 <= (if q < 0 { -q } else { q }) * s)
        by (nonlinear_arith)
        requires
            0 <= d < 0x1_0001_0000_0000_0000_0000,
            q >= 0x1000_0000_0000_0000_0000_0000_0000_0000 || q
                <= -0x1000_0000_0000_0000_0000_0000_0000_0000,
            s > 0,
    ;
    assert((if q < 0 { -q } else { q }) * s == (if q * s < 0 { -(q * s) } else { q * s }))
        by (nonlinear_arith)
        requires
            s > 0,
    ;
}

/// Aligning a mantissa loses less than one unit: in units of
/// `2^(e + d + 1)`, or of `2^(e + 1)` where `d` is negative, the aligned half
/// of the mantissa `m` at exponent `e` is the value `m * 2^e` rounded down,
/// and the value itself where `d` is not positive.
#[verifier::spinoff_prover]
#[verifier::rlimit(40)]
proof fn lemma_align_value(m: int, e: nat, d: int)
    requires
        m % 65536 == 0,
    ensures
        ({
            let w = pow2((if d > 0 { e + d + 1 } else { e + 1int }) as nat) as int;
            &&& align(m, d) * w <= m * pow2(e) < (align(m, d) + 1) * w
            &&& d <= 0 ==> align(m, d) * w == m * pow2(e)
        }),
{
    lemma2_to64();
    lemma_pow2_pos(e);
    let pe = pow2(e) as int;
    let h = m / 2;
    vstd::arithmetic::power2::lemma_pow2_unfold(e + 1);
    assert(h * (2 * pe) == m * pe) by (nonlinear_arith)
        requires
            m == 2 * h,
    ;
    if d > 0 {
        let pd = pow2(d as nat) as int;
        lemma_pow2_pos(d as nat);
        lemma_pow2_adds(d as nat, e + 1);
        let w = pow2((e + d + 1) as nat) as int;
        assert(w == pd * (2 * pe));
        let q = h / pd;
        let r = h % pd;
        vstd::arithmetic::div_mod::lemma_fundamental_div_mod(h, pd);
        vstd::arithmetic::div_mod::lemma_mod_bound(h, pd);
        assert(q * w <= h * (2 * pe) < (q + 1) * w) by (nonlinear_arith)
            requires
                h == pd * q + r,
                0 <= r < pd,
                w == pd * (2 * pe),
                pe > 0,
        ;
    } else {
        let w = pow2(e + 1) as int;
        assert(align(m, d) == h);
        assert(h * w < (h + 1) * w) by (nonlinear_arith)
            requires
                w > 0,
        ;
    }
}

/// Packing a rounded sum loses less than 65536 units: the value of the word
/// for the sum `vr` lies in `(vr - 65536, vr]` in units of `2^exp_max`.
#[verifier::spinoff_prover]
#[verifier::rlimit(40)]
proof fn lemma_finish_sum_value(vr: int, exp_max: int)
    requires
        -two63() <= vr < two63(),
        exp_max >= 0,
        sum_in_range(vr, exp_max),
    ensures
        finish_sum(vr, exp_max).wf(),
        finish_sum(vr, exp_max).scaled() <= vr * pow2(exp_max as nat),
        vr * pow2(exp_max as nat) - 65536 * pow2(exp_max as nat) < finish_sum(vr, exp_max).scaled(),
{
    let w = pow2(exp_max as nat) as int;
    lemma_pow2_pos(exp_max as nat);
    if vr == 0 {
        assert(0 * pow2(0) == 0);
    } else {
        lemma_lead_bits(vr);
        lemma_assemble(vr, exp_max);
        let lb = (lead_bits(vr) - 1) as nat;
        assert(finish_sum(vr, exp_max) == assemble(vr, exp_max));
        let p = pow2(lb) as int;
        let g = pow2((exp_max - lb) as nat) as int;
        lemma_pow2_pos(lb);
        lemma_pow2_pos((exp_max - lb) as nat);
        lemma_pow2_adds(lb, (exp_max - lb) as nat);
        let t = trunc16(vr * p);
        assert(t * g <= vr * w && vr * w - 65536 * w < t * g) by (nonlinear_arith)
            requires
                t <= vr * p < t + 65536,
                w == p * g,
                p >= 1,
                g >= 1,
        ;
    }
}

/// Rounding up to half a unit of the last place adds less than `2^15`.
#[verifier::spinoff_prover]
#[verifier::rlimit(40)]
proof fn lemma_round_up15(s: int)
    ensures
        s <= round_up15(s) <= s + 32767,
        round_up15(s) % 32768 == 0,
{
    vstd::arithmetic::div_mod::lemma_fundamental_div_mod(s + 32767, 32768);
    vstd::arithmetic::div_mod::lemma_mod_multiples_basic((s + 32767) / 32768, 32768);
}

/// Addition is accurate: where the exponent fields of two well-formed words
/// are less than 63 apart and the sum stays within the exponent range, the
/// sum differs from the exact sum of the values by less than 65537 units of
/// `2^(E + 1)`, for `E` the larger exponent field: less than `2^-44` of the
/// larger operand.
#[verifier::spinoff_prover]
#[verifier::rlimit(40)]
pub proof fn lemma_add_accuracy(x: PseudoDouble, y: PseudoDouble)
    requires
        x.wf(),
        y.wf(),
        -63 < y.expo() - x.expo() < 63,
        x.add_in_range(y),
    ensures
        ({
            let e = if y.expo() >= x.expo() { y.expo() } else { x.expo() };
            let w = pow2((e + 1) as nat) as int;
            let exact = x.scaled() + y.scaled();
            let got = x.spec_add(y).scaled();
            -65537 * w < got - exact <= 32767 * w
        }),
{
    lemma_sign(x);
    lemma_sign(y);
    let ex = x.expo() as nat;
    let ey = y.expo() as nat;
    let d = ey - ex;
    let e = if d >= 0 { ey } else { ex };
    let w = pow2((e + 1) as nat) as int;
    let ax = align(x.mant(), d);
    let ay = align(y.mant(), -d);
    lemma_align_value(x.mant(), ex, d);
    lemma_align_value(y.mant(), ey, -d);
    lemma_align_bound(x.mant(), d);
    lemma_align_bound(y.mant(), -d);
    let s = ax + ay;
    let vr = round_up15(s);
    lemma_round_up15(s);
    lemma_finish_sum_value(vr, (e + 1) as int);
    lemma_pow2_pos((e + 1) as nat);
    let got = x.spec_add(y).scaled();
    let exact = x.scaled() + y.scaled();
    let xs = x.scaled();
    let ys = y.scaled();
    assert(s * w <= exact < (s + 1) * w) by (nonlinear_arith)
        requires
            s == ax + ay,
            exact == xs + ys,
            ax * w <= xs < (ax + 1) * w,
            ay * w <= ys < (ay + 1) * w,
            ax * w == xs || ay * w == ys,
    ;
    assert(-65537 * w < got - exact <= 32767 * w) by (nonlinear_arith)
        requires
            s * w <= exact < (s + 1) * w,
            s <= vr <= s + 32767,
            got <= vr * w,
            vr * w - 65536 * w < got,
            w > 0,
    ;
}

/// Subtraction is accurate, as addition is.
#[verifier::spinoff_prover]
#[verifier::rlimit(40)]
pub proof fn lemma_sub_accuracy(x: PseudoDouble, y: PseudoDouble)
    requires
        x.wf(),
        y.wf(),
        -63 < y.expo() - x.expo() < 63,
        x.sub_in_range(y),
    ensures
        ({
            let e = if y.expo() >= x.expo() { y.expo() } else { x.expo() };
            let w = pow2((e + 1) as nat) as int;
            let exact = x.scaled() - y.scaled();
            let got = x.spec_sub(y).scaled();
            -65537 * w < got - exact < 32769 * w
        }),
{
    lemma_sign(x);
    lemma_sign(y);
    let ex = x.expo() as nat;
    let ey = y.expo() as nat;
    let d = ey - ex;
    let e = if d >= 0 { ey } else { ex };
    let w = pow2((e + 1) as nat) as int;
    let ax = align(x.mant(), d);
    let ay = align(y.mant(), -d);
    lemma_align_value(x.mant(), ex, d);
    lemma_align_value(y.mant(), ey, -d);
    lemma_align_bound(x.mant(), d);
    lemma_align_bound(y.mant(), -d);
    let s = ax - ay;
    let vr = round_up15(s);
    lemma_round_up15(s);
    lemma_finish_sum_value(vr, (e + 1) as int);
    lemma_pow2_pos((e + 1) as nat);
    let got = x.spec_sub(y).scaled();
    let exact = x.scaled() - y.scaled();
    let xs = x.scaled();
    let ys = y.scaled();
    assert((s - 1) * w < exact < (s + 1) * w) by (nonlinear_arith)
        requires
            s == ax - ay,
            exact == xs - ys,
            ax * w <= xs < (ax + 1) * w,
            ay * w <= ys < (ay + 1) * w,
            w > 0,
    ;
    assert(-65537 * w < got - exact < 32769 * w) by (nonlinear_arith)
        requires
            (s - 1) * w < exact < (s + 1) * w,
            s <= vr <= s + 32767,
            got <= vr * w,
            vr * w - 65536 * w < got,
            w > 0,
    ;
}

/// A quotient rounded towards zero, times the divisor, is less than the
/// divisor away from the dividend, and not beyond it in magnitude.
#[verifier::spinoff_prover]
#[verifier::rlimit(40)]
proof fn lemma_trunc_div(n: int, b: int)
    requires
        b != 0,
    ensures
        ({
            let q = trunc_div(n, b);
            let ab = if b < 0 { -b } else { b };
            let an = if n < 0 { -n } else { n };
            let aq = if q < 0 { -q } else { q };
            &&& -ab < q * b - n < ab
            &&& aq * ab <= an < aq * ab + ab
        }),
{
    let ab = if b < 0 { -b } else { b };
    let an = if n < 0 { -n } else { n };
    let k = an / ab;
    let r = an % ab;
    vstd::arithmetic::div_mod::lemma_fundamental_div_mod(an, ab);
    vstd::arithmetic::div_mod::lemma_mod_bound(an, ab);
    assert(k >= 0) by (nonlinear_arith)
        requires
            an == ab * k + r,
            0 <= r < ab,
            an >= 0,
    ;
    let q = trunc_div(n, b);
    assert(q == (if (n < 0) == (b < 0) { k } else { -k }));
    assert(q * b - n == (if n < 0 { r } else { -r })) by (nonlinear_arith)
        requires
            q == (if (n < 0) == (b < 0) { k } else { -k }),
            an == ab * k + r,
            ab == (if b < 0 { -b } else { b }),
            an == (if n < 0 { -n } else { n }),
    ;
    assert(k * ab == ab * k) by (nonlinear_arith);
}

/// The quotient of two normalized mantissas, normalized and cut to 48 bits,
/// times the divisor, is within `2^80` of the dividend moved up to match.
#[verifier::spinoff_prover]
#[verifier::rlimit(40)]
proof fn lemma_div_mantissa(a: int, b: int)
    requires
        normal_mantissa(a),
        normal_mantissa(b),
        a % 4 == 0,
    ensures
        ({
            let n = (a / 4) * two64();
            let qv = wrap64(trunc_div(n, b));
            let lb = (lead_bits(qv) - 1) as nat;
            let t = trunc16(qv * pow2(lb));
            let d = t * b - n * pow2(lb);
            &&& qv != 0
            &&& -two63() <= qv < two63()
            &&& 0 <= lead_bits(qv) - 1 <= 2
            &&& -0x1_0000_0000_0000_0000_0000 < d < 0x1_0000_0000_0000_0000_0000
            &&& n >= 0x1000_0000_0000_0000_0000_0000_0000_0000 || n
                <= -0x1000_0000_0000_0000_0000_0000_0000_0000
        }),
{
    lemma2_to64();
    lemma2_to64_rest();
    let c = a / 4;
    let n = c * two64();
    let q = trunc_div(n, b);
    lemma_trunc_div(n, b);
    let ab = if b < 0 { -b } else { b };
    let an = if n < 0 { -n } else { n };
    let aq = if q < 0 { -q } else { q };
    let ac = if c < 0 { -c } else { c };
    assert(0x1000_0000_0000_0000 <= ac <= 0x2000_0000_0000_0000);
    assert(an == ac * two64());
    assert(0x2000_0000_0000_0000 <= aq <= two63() && (aq == two63() ==> ab == two62()))
        by (nonlinear_arith)
        requires
            aq * ab <= an < aq * ab + ab,
            an == ac * two64(),
            0x1000_0000_0000_0000 <= ac <= 0x2000_0000_0000_0000,
            two62() <= ab <= two63(),
            aq >= 0,
    ;
    if aq == two63() {
        assert(ac >= 0x2000_0000_0000_0000) by (nonlinear_arith)
            requires
                aq * ab <= an,
                aq == two63(),
                ab >= two62(),
                an == ac * two64(),
        ;
        assert(c == -0x2000_0000_0000_0000);
        assert(n < 0) by (nonlinear_arith)
            requires
                n == c * two64(),
                c < 0,
        ;
        assert(b == two62());
        assert((-n) / b >= 0) by (nonlinear_arith)
            requires
                -n > 0,
                b > 0,
        ;
        assert(q <= 0);
    }
    lemma_wrap64_id(q);
    let qv = wrap64(q);
    assert(qv == q);
    lemma_lead_bits(qv);
    let lb = (lead_bits(qv) - 1) as nat;
    let p = pow2(lb) as int;
    lemma_pow2_pos(lb);
    assert(p <= 4) by (nonlinear_arith)
        requires
            aq >= 0x2000_0000_0000_0000,
            aq == (if q < 0 { -q } else { q }),
            -two63() <= q * p < two63(),
            p > 0,
    ;
    if lb > 2 {
        lemma_pow2_monotonic(3, lb);
    }
    let t = trunc16(qv * p);
    let d = t * b - n * p;
    assert(-0x1_0000_0000_0000_0000_0000 < d < 0x1_0000_0000_0000_0000_0000) by (nonlinear_arith)
        requires
            d == t * b - n * p,
            t <= q * p < t + 65536,
            1 <= p <= 4,
            -ab < q * b - n < ab,
            ab == (if b < 0 { -b } else { b }),
            two62() <= ab <= two63(),
    ;
}

/// Division is accurate: the quotient of two well-formed words that are not
/// zero, where it stays within the exponent range, times the divisor,
/// differs from the dividend by less than `2^-44` of the dividend's
/// magnitude.
#[verifier::spinoff_prover]
#[verifier::rlimit(40)]
pub proof fn lemma_div_accuracy(x: PseudoDouble, y: PseudoDouble)
    requires
        x.wf(),
        y.wf(),
        x.0 != 0,
        y.0 != 0,
        0 <= 2 + x.expo() - y.expo() + 32768 - (lead_bits(
            wrap64(trunc_div((x.mant() / 4) * two64(), y.mant())),
        ) - 1) <= 65535,
    ensures
        ({
            let r = x.spec_div(y);
            let err = r.scaled() * y.scaled() - x.scaled() * unit();
            let size = if x.scaled() < 0 { -x.scaled() * unit() } else { x.scaled() * unit() };
            &&& r.wf()
            &&& -size <= err * 0x1000_0000_0000 <= size
        }),
{
    lemma_sign(x);
    lemma_sign(y);
    lemma2_to64();
    lemma2_to64_rest();
    lemma_pow2_pos(32832);
    let a = x.mant();
    let b = y.mant();
    let ex = x.expo() as nat;
    let ey = y.expo() as nat;
    let n = (a / 4) * two64();
    let qv = wrap64(trunc_div(n, b));
    lemma_div_mantissa(a, b);
    let lb = (lead_bits(qv) - 1) as nat;
    let base = 2 + ex - ey + 32768;
    lemma_assemble(qv, base);
    let r = x.spec_div(y);
    let p = pow2(lb) as int;
    let t = trunc16(qv * p);
    assert(r.mant() == t && r.expo() == base - lb);
    let g = pow2((ex + 32770 - lb) as nat) as int;
    lemma_pow2_pos((ex + 32770 - lb) as nat);
    lemma_pow2_pos(lb);
    lemma_pow2_adds((base - lb) as nat, ey);
    lemma_pow2_adds(lb, (ex + 32770 - lb) as nat);
    lemma_pow2_adds(ex, 32770);
    lemma_pow2_adds(62, 32770);
    let u = unit();
    let pr = pow2((base - lb) as nat) as int;
    let px = pow2(ex) as int;
    let py = pow2(ey) as int;
    assert(pr * py == g);
    assert(px * pow2(32770) == p * g);
    assert(u == two62() * pow2(32770));
    let left = r.scaled() * y.scaled();
    let right = x.scaled() * u;
    assert(left == (t * b) * g) by (nonlinear_arith)
        requires
            left == (t * pr) * (b * py),
            pr * py == g,
    ;
    assert(right == (n * p) * g) by (nonlinear_arith)
        requires
            right == (a * px) * u,
            u == two62() * pow2(32770),
            px * pow2(32770) == p * g,
            n == (a / 4) * two64(),
            a == 4 * (a / 4),
    ;
    let d = t * b - n * p;
    assert(left - right == d * g) by (nonlinear_arith)
        requires
            left == (t * b) * g,
            right == (n * p) * g,
            d == t * b - n * p,
    ;
    let an = if n < 0 { -n } else { n };
    assert(-(an * p * g) <= (d * g) * 0x1000_0000_0000 <= an * p * g) by (nonlinear_arith)
        requires
            -0x1_0000_0000_0000_0000_0000 < d < 0x1_0000_0000_0000_0000_0000,
            an >= 0x1000_0000_0000_0000_0000_0000_0000_0000,
            p >= 1,
            g > 0,
    ;
    assert(an * p * g == (if right < 0 { -right } else { right })) by (nonlinear_arith)
        requires
            right == (n * p) * g,
            an == (if n < 0 { -n } else { n }),
            p >= 1,
            g > 0,
    ;
    assert(right < 0 <==> x.scaled() < 0) by (nonlinear_arith)
        requires
            right == x.scaled() * u,
            u > 0,
    ;
    assert(-x.scaled() * u == -(x.scaled() * u)) by (nonlinear_arith);
}

} // verus!
