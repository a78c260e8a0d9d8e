//! What holds of the packed reals as a whole: the order of the words is the
//! order of the values, integers survive encoding and decoding, negation is
//! exact, rounding brackets a number, and a zero exponent gives a power of
//! one.

use vstd::prelude::*;
use vstd::arithmetic::power2::{pow2, lemma_pow2_pos, lemma_pow2_adds, lemma2_to64, lemma2_to64_rest};
use crate::bits::{two62, two63, two64, mul_hi, lead_bits, lemma_lead_bits, lemma_bit_len_upper, lemma_pow2_monotonic, lemma_wrap64_id};
use crate::pseudo_double::{PseudoDouble, assemble, trunc16, normal_mantissa, encode_int, encode_nat, lemma_assemble, PD_ONE_BITS, PD_NEG_ONE_BITS};
use crate::rounding::floor_to;
use crate::ieee::spec_from_double_bits;

verus! {

/// Of two magnitudes that fill the word, the one with the larger exponent is
/// the larger number.
#[verifier::spinoff_prover]
#[verifier::rlimit(40)]
proof fn lemma_scale_order(m1: int, e1: nat, m2: int, e2: nat)
    requires
        two62() <= m1 <= two63(),
        two62() <= m2 <= two63(),
        m1 < two63() || m2 > two62(),
        e1 < e2,
    ensures
        m1 * pow2(e1) < m2 * pow2(e2),
{
    lemma_pow2_pos(e1);
    lemma_pow2_monotonic(e1 + 1, e2);
    vstd::arithmetic::power2::lemma_pow2_unfold(e1 + 1);
    let pa = pow2(e1) as int;
    let pb = pow2(e2) as int;
    assert(m1 * pa < m2 * pb) by (nonlinear_arith)
        requires
            two62() <= m1 <= two63(),
            two62() <= m2 <= two63(),
            m1 < two63() || m2 > two62(),
            pa > 0,
            pb >= 2 * pa,
    ;
}

/// A well-formed word that is not zero has the sign of its mantissa.
#[verifier::spinoff_prover]
#[verifier::rlimit(40)]
pub proof fn lemma_sign(x: PseudoDouble)
    requires
        x.wf(),
    ensures
        (x.0 > 0) == (x.mant() > 0),
        (x.0 < 0) == (x.mant() < 0),
        (x.0 == 0) == (x.mant() == 0),
        (x.0 > 0) == (x.scaled() > 0),
        (x.0 < 0) == (x.scaled() < 0),
        0 <= x.expo() <= 65535,
{
    lemma_pow2_pos(x.expo() as nat);
    let p = pow2(x.expo() as nat) as int;
    let m = x.mant();
    assert((m > 0) == (m * p > 0) && (m < 0) == (m * p < 0)) by (nonlinear_arith)
        requires
            p > 0,
    ;
}

/// Order preservation: of two well-formed words, one is below the other in
/// the order of the library exactly when its value is the smaller, and two
/// words with the same value are the same word.
#[verifier::spinoff_prover]
#[verifier::rlimit(40)]
pub proof fn lemma_order_is_value_order(x: PseudoDouble, y: PseudoDouble)
    requires
        x.wf(),
        y.wf(),
    ensures
        x.spec_lt(y) <==> x.scaled() < y.scaled(),
        x.spec_le(y) <==> x.scaled() <= y.scaled(),
        x == y <==> x.scaled() == y.scaled(),
{
    lemma_sign(x);
    lemma_sign(y);
    let ex = x.expo() as nat;
    let ey = y.expo() as nat;
    let mx = x.mant();
    let my = y.mant();
    lemma_pow2_pos(ex);
    lemma_pow2_pos(ey);
    if x.0 != 0 && y.0 != 0 && (x.0 < 0) == (y.0 < 0) {
        if ex == ey {
            let p = pow2(ex) as int;
            assert((mx < my) == (mx * p < my * p) && (mx == my) == (mx * p == my * p))
                by (nonlinear_arith)
                requires
                    p > 0,
            ;
        } else if x.0 > 0 {
            if ex < ey {
                lemma_scale_order(mx, ex, my, ey);
            } else {
                lemma_scale_order(my, ey, mx, ex);
            }
        } else {
            if ex < ey {
                lemma_scale_order(-mx, ex, -my, ey);
                assert((-mx) * pow2(ex) == -(mx * pow2(ex))) by (nonlinear_arith);
                assert((-my) * pow2(ey) == -(my * pow2(ey))) by (nonlinear_arith);
            } else {
                lemma_scale_order(-my, ey, -mx, ex);
                assert((-mx) * pow2(ex) == -(mx * pow2(ex))) by (nonlinear_arith);
                assert((-my) * pow2(ey) == -(my * pow2(ey))) by (nonlinear_arith);
            }
        }
    }
}

/// An integer of up to 47 bits and a sign is encoded exactly: its word is
/// well-formed and has the integer as its value.
#[verifier::spinoff_prover]
#[verifier::rlimit(40)]
pub proof fn lemma_encode_int_exact(n: int)
    requires
        -0x8000_0000_0000 <= n < 0x8000_0000_0000,
    ensures
        encode_int(n).wf(),
        encode_int(n).scaled() == n * pow2(32832),
        n != 0 ==> encode_int(n).mant() == n * pow2((lead_bits(n) - 1) as nat) && encode_int(
            n,
        ).expo() == 32833 - lead_bits(n) && 17 <= lead_bits(n) <= 64,
{
    lemma2_to64();
    lemma2_to64_rest();
    if n != 0 {
        lemma_lead_bits(n);
        lemma_bit_len_upper(if n < 0 { (-n - 1) as nat } else { n as nat }, 47);
        let lb = (lead_bits(n) - 1) as nat;
        lemma_assemble(n, 32832);
        lemma_pow2_adds(16, (lb - 16) as nat);
        let q = pow2((lb - 16) as nat) as int;
        let m = n * pow2(lb);
        assert(m == (n * q) * 65536) by (nonlinear_arith)
            requires
                m == n * pow2(lb),
                pow2(lb) == 65536 * q,
        ;
        vstd::arithmetic::div_mod::lemma_mod_multiples_basic(n * q, 65536);
        assert(trunc16(m) == m);
        lemma_pow2_adds(lb, (32832 - lb) as nat);
        let a = pow2(lb) as int;
        let b = pow2((32832 - lb) as nat) as int;
        assert((n * a) * b == n * (a * b)) by (nonlinear_arith);
    } else {
        assert(encode_int(0) == PseudoDouble(0));
        assert(0 * pow2(0) == 0);
    }
}

/// Round trip: an integer of up to 47 bits and a sign decodes to itself, as
/// a signed integer and, where it is not negative, as an unsigned one.
#[verifier::spinoff_prover]
#[verifier::rlimit(40)]
pub proof fn lemma_int_round_trip(n: int)
    requires
        -0x8000_0000_0000 <= n < 0x8000_0000_0000,
    ensures
        encode_int(n).decode_int() == n,
        n >= 0 ==> encode_nat(n).decode_nat() == n,
{
    lemma2_to64();
    lemma2_to64_rest();
    lemma_encode_int_exact(n);
    if n != 0 {
        let lb = (lead_bits(n) - 1) as nat;
        let x = encode_int(n);
        lemma_sign(x);
        lemma_pow2_pos(lb);
        assert(x.unbiased() == 64 - lb);
        vstd::arithmetic::div_mod::lemma_div_multiples_vanish(n, pow2(lb) as int);
        assert(n * pow2(lb) == pow2(lb) * n) by (nonlinear_arith);
        assert(x.mant() / (pow2(lb) as int) == n);
        lemma_lead_bits(n);
        let p = pow2(lb) as int;
        assert((n > 0) == (n * p > 0)) by (nonlinear_arith)
            requires
                p > 0,
        ;
    }
}

/// Encoding keeps the order of integers of up to 47 bits and a sign.
#[verifier::spinoff_prover]
#[verifier::rlimit(40)]
pub proof fn lemma_encode_int_order(a: int, b: int)
    requires
        -0x8000_0000_0000 <= a < 0x8000_0000_0000,
        -0x8000_0000_0000 <= b < 0x8000_0000_0000,
    ensures
        encode_int(a).spec_lt(encode_int(b)) <==> a < b,
{
    lemma_encode_int_exact(a);
    lemma_encode_int_exact(b);
    lemma_order_is_value_order(encode_int(a), encode_int(b));
    lemma_pow2_pos(32832);
    let p = pow2(32832) as int;
    assert((a < b) == (a * p < b * p)) by (nonlinear_arith)
        requires
            p > 0,
    ;
}

/// Negation is exact: the negated word of a well-formed word is well-formed
/// and has the opposite value, unless the exponent would leave its range
/// (the mantissa `-2^63` at the top exponent, the mantissa `2^62` at the
/// bottom one).
#[verifier::spinoff_prover]
#[verifier::rlimit(40)]
pub proof fn lemma_neg_exact(x: PseudoDouble)
    requires
        x.wf(),
        !(x.mant() == -two63() && x.expo() == 65535),
        !(x.mant() == two62() && x.expo() == 0),
    ensures
        x.spec_neg().wf(),
        x.spec_neg().scaled() == -x.scaled(),
        x.spec_neg().spec_neg() == x,
{
    let m = x.mant();
    let e = x.expo();
    lemma_pow2_pos(e as nat);
    let p = pow2(e as nat) as int;
    if x.0 == 0 {
        assert(x.spec_neg() == PseudoDouble(0)) by {
            lemma_wrap64_id(0);
        }
        assert(0 * pow2(0) == 0);
    } else if m == -two63() {
        lemma_wrap64_id(two62() + e + 1);
        vstd::arithmetic::power2::lemma_pow2_unfold((e + 1) as nat);
        let r = x.spec_neg();
        assert(r.0 == two62() + e + 1);
        assert(r.mant() == two62() && r.expo() == e + 1);
        assert(two62() * (2 * p) == -((-two63()) * p)) by (nonlinear_arith);
        lemma_wrap64_id(-two63() + e);
    } else if m == two62() {
        lemma_wrap64_id(-two63() + e - 1);
        vstd::arithmetic::power2::lemma_pow2_unfold(e as nat);
        let r = x.spec_neg();
        let ph = pow2((e - 1) as nat) as int;
        assert(r.0 == -two63() + e - 1);
        assert(r.mant() == -two63() && r.expo() == e - 1);
        assert((-two63()) * ph == -(two62() * (2 * ph))) by (nonlinear_arith);
        lemma_wrap64_id(two62() + e);
    } else {
        lemma_wrap64_id(-m + e);
        lemma_wrap64_id(m + e);
        let r = x.spec_neg();
        assert(trunc16(-m) == -m);
        assert(r.0 == -m + e);
        assert(r.mant() == -m && r.expo() == e);
        assert((-m) * p == -(m * p)) by (nonlinear_arith);
    }
}

/// A power with exponent zero is one, whatever the positive base.
#[verifier::spinoff_prover]
#[verifier::rlimit(40)]
pub proof fn lemma_pow_zero(x: PseudoDouble)
    requires
        x.0 > 0,
    ensures
        x.spec_powf(PseudoDouble(0)) == PseudoDouble(PD_ONE_BITS),
{
    let (lm, le) = x.log2_parts();
    assert(PseudoDouble(0).mant() == 0);
    assert(mul_hi(lm, 0) == 0) by (nonlinear_arith)
        requires
            mul_hi(lm, 0) == (lm * 0) / two64(),
    ;
}

/// The value of an assembled word whose mantissa loses no bit: the value
/// that went in.
#[verifier::spinoff_prover]
#[verifier::rlimit(40)]
pub proof fn lemma_assemble_exact(v: int, base: int)
    requires
        -two63() <= v < two63(),
        v != 0,
        v % 65536 == 0,
        0 <= base - (lead_bits(v) - 1) <= 65535,
    ensures
        assemble(v, base).wf(),
        assemble(v, base).scaled() == v * pow2(base as nat),
{
    lemma_lead_bits(v);
    lemma_assemble(v, base);
    let lb = (lead_bits(v) - 1) as nat;
    let a = pow2(lb) as int;
    let q = v / 65536;
    let m = v * a;
    assert(m == (q * a) * 65536) by (nonlinear_arith)
        requires
            m == v * a,
            v == 65536 * q,
    ;
    vstd::arithmetic::div_mod::lemma_mod_multiples_basic(q * a, 65536);
    assert(trunc16(m) == m);
    lemma_pow2_adds(lb, (base - lb) as nat);
    let b = pow2((base - lb) as nat) as int;
    assert((v * a) * b == v * (a * b)) by (nonlinear_arith);
}

/// The largest multiple of `2^k` not above `v` lies between any multiple of
/// `2^k` that is not above `v`, and `v` itself, and is less than `2^k` below.
#[verifier::spinoff_prover]
#[verifier::rlimit(40)]
pub proof fn lemma_floor_to(v: int, k: nat, c: int)
    requires
        c <= v,
    ensures
        floor_to(v, k as int) <= v < floor_to(v, k as int) + pow2(k),
        floor_to(v, k as int) % (pow2(k) as int) == 0,
        c % (pow2(k) as int) == 0 ==> c <= floor_to(v, k as int),
{
    lemma_pow2_pos(k);
    let p = pow2(k) as int;
    let q = v / p;
    vstd::arithmetic::div_mod::lemma_fundamental_div_mod(v, p);
    vstd::arithmetic::div_mod::lemma_mod_bound(v, p);
    assert(q * p == p * q) by (nonlinear_arith);
    vstd::arithmetic::div_mod::lemma_mod_multiples_basic(q, p);
    if c % p == 0 {
        let d = c / p;
        vstd::arithmetic::div_mod::lemma_fundamental_div_mod(c, p);
        assert(d <= q) by (nonlinear_arith)
            requires
                p * d <= p * q + (v % p),
                0 <= v % p < p,
                p > 0,
        ;
        assert(p * d <= p * q) by (nonlinear_arith)
            requires
                d <= q,
                p > 0,
        ;
    }
}

/// A multiple of `2^a` is a multiple of `2^b` for `b` up to `a`, and the
/// powers of two up to the 63rd are multiples of the lower ones.
#[verifier::spinoff_prover]
#[verifier::rlimit(40)]
proof fn lemma_multiple_pow2(v: int, a: nat, b: nat)
    requires
        b <= a,
        v % (pow2(a) as int) == 0,
    ensures
        v % (pow2(b) as int) == 0,
{
    lemma_pow2_pos(a);
    lemma_pow2_pos(b);
    lemma_pow2_adds(b, (a - b) as nat);
    let pa = pow2(a) as int;
    let pb = pow2(b) as int;
    let t = pow2((a - b) as nat) as int;
    let q = v / pa;
    vstd::arithmetic::div_mod::lemma_fundamental_div_mod(v, pa);
    assert(v == (q * t) * pb) by (nonlinear_arith)
        requires
            v == pa * q,
            pa == pb * t,
    ;
    vstd::arithmetic::div_mod::lemma_mod_multiples_basic(q * t, pb);
}

/// `2^n` is a multiple of `2^k` for `k` up to `n`.
#[verifier::spinoff_prover]
#[verifier::rlimit(40)]
proof fn lemma_pow2_multiple(n: nat, k: nat)
    requires
        k <= n,
    ensures
        (pow2(n) as int) % (pow2(k) as int) == 0,
        (-(pow2(n) as int)) % (pow2(k) as int) == 0,
{
    lemma_pow2_pos(k);
    lemma_pow2_adds(k, (n - k) as nat);
    let t = pow2((n - k) as nat) as int;
    let pk = pow2(k) as int;
    assert(pow2(n) as int == t * pk) by (nonlinear_arith)
        requires
            pow2(n) == pk * t,
    ;
    assert(-(pow2(n) as int) == (-t) * pk) by (nonlinear_arith)
        requires
            pow2(n) == pk * t,
    ;
    vstd::arithmetic::div_mod::lemma_mod_multiples_basic(t, pk);
    vstd::arithmetic::div_mod::lemma_mod_multiples_basic(-t, pk);
}

/// The floor of a well-formed word is well-formed and not above it.
#[verifier::spinoff_prover]
#[verifier::rlimit(40)]
pub proof fn lemma_floor_below(x: PseudoDouble)
    requires
        x.wf(),
    ensures
        x.spec_floor().wf(),
        x.spec_floor().spec_le(x),
        x.spec_floor().scaled() <= x.scaled(),
{
    lemma_sign(x);
    lemma2_to64();
    lemma2_to64_rest();
    let e = x.unbiased();
    let m = x.mant();
    if e < 2 {
        assert(PseudoDouble(PD_NEG_ONE_BITS).mant() == -two63());
        assert(PseudoDouble(PD_NEG_ONE_BITS).expo() == 32769);
    } else if e < 48 {
        let k = (64 - e) as nat;
        let fl = floor_to(m, k as int);
        lemma_pow2_multiple(62, k);
        lemma_pow2_multiple(63, k);
        lemma_pow2_multiple(k, 16);
        if m > 0 {
            lemma_floor_to(m, k, two62());
        } else {
            lemma_floor_to(m, k, -two63());
        }
        lemma_multiple_pow2(fl, k, 16);
        let r = x.spec_floor();
        assert(r.0 == fl + x.expo());
        assert(r.mant() == fl && r.expo() == x.expo());
    }
    lemma_sign(x.spec_floor());
    lemma_order_is_value_order(x.spec_floor(), x);
}

/// Half of a normalized mantissa, rounded up to a multiple of `2^k`: it is
/// not zero, has the sign of the mantissa, is not below the half, and has no
/// bit below the sixteenth.
#[verifier::spinoff_prover]
#[verifier::rlimit(40)]
proof fn lemma_ceil_operand(m: int, k: nat)
    requires
        normal_mantissa(m),
        m % 65536 == 0,
        16 <= k <= 61,
    ensures
        ({
            let vr = floor_to(m / 2 + pow2(k) - 1, k as int);
            &&& vr != 0
            &&& (vr < 0) == (m < 0)
            &&& -two62() <= vr <= two62()
            &&& vr >= m / 2
            &&& vr % 65536 == 0
        }),
{
    lemma2_to64();
    lemma2_to64_rest();
    let p = pow2(k) as int;
    let h = m / 2;
    let vr = floor_to(h + p - 1, k as int);
    lemma_pow2_pos(k);
    lemma_pow2_monotonic(16, k);
    lemma_pow2_monotonic(k, 61);
    lemma_pow2_multiple(62, k);
    lemma_pow2_multiple(k, 16);
    lemma_floor_to(h + p - 1, k, h + p - 1);
    lemma_multiple_pow2(vr, k, 16);
    let q = (h + p - 1) / p;
    let t = pow2((62 - k) as nat) as int;
    lemma_pow2_adds(k, (62 - k) as nat);
    assert(vr == q * p);
    assert(q <= t) by (nonlinear_arith)
        requires
            q * p <= h + p - 1,
            h < p * t,
            p > 0,
    ;
    assert(q * p <= t * p) by (nonlinear_arith)
        requires
            q <= t,
            p > 0,
    ;
    assert(t * p == p * t) by (nonlinear_arith);
}

/// The ceiling of a well-formed word with integer and fraction bits is
/// well-formed and not below the word in value.
#[verifier::spinoff_prover]
#[verifier::rlimit(40)]
proof fn lemma_ceil_middle(x: PseudoDouble)
    requires
        x.wf(),
        2 <= x.unbiased() < 48,
    ensures
        x.spec_ceil().wf(),
        x.scaled() <= x.spec_ceil().scaled(),
{
    lemma_sign(x);
    let e = x.unbiased();
    let m = x.mant();
    let k = (63 - e) as nat;
    let vr = floor_to(m / 2 + pow2(k) - 1, k as int);
    lemma_ceil_operand(m, k);
    lemma_lead_bits(vr);
    lemma_assemble_exact(vr, x.expo() + 1);
    vstd::arithmetic::power2::lemma_pow2_unfold((x.expo() + 1) as nat);
    lemma_pow2_pos(x.expo() as nat);
    let pe = pow2(x.expo() as nat) as int;
    let h = m / 2;
    assert(vr * (2 * pe) >= m * pe) by (nonlinear_arith)
        requires
            vr >= h,
            m == 2 * h,
            pe > 0,
    ;
}

/// The ceiling of a well-formed word is well-formed and not below it.
#[verifier::spinoff_prover]
#[verifier::rlimit(40)]
pub proof fn lemma_ceil_above(x: PseudoDouble)
    requires
        x.wf(),
    ensures
        x.spec_ceil().wf(),
        x.spec_le(x.spec_ceil()),
        x.scaled() <= x.spec_ceil().scaled(),
{
    lemma_sign(x);
    let e = x.unbiased();
    if e < 2 {
        assert(PseudoDouble(PD_ONE_BITS).mant() == two62());
        assert(PseudoDouble(PD_ONE_BITS).expo() == 32770);
        lemma_sign(x.spec_ceil());
        assert(x.spec_le(x.spec_ceil()));
    } else if e < 48 {
        lemma_ceil_middle(x);
    }
    lemma_order_is_value_order(x, x.spec_ceil());
}

/// A number lies between its floor and its ceiling.
#[verifier::spinoff_prover]
#[verifier::rlimit(40)]
pub proof fn lemma_floor_ceil_bracket(x: PseudoDouble)
    requires
        x.wf(),
    ensures
        x.spec_floor().spec_le(x),
        x.spec_le(x.spec_ceil()),
{
    lemma_floor_below(x);
    lemma_ceil_above(x);
}

/// The scaled value of one: `2^(32768 + 64)`.
pub open spec fn unit() -> int {
    pow2(32832) as int
}

/// A common factor cancels in a quotient that is rounded down.
#[verifier::spinoff_prover]
#[verifier::rlimit(40)]
pub proof fn lemma_cancel_div(a: int, d: int, c: int)
    requires
        d > 0,
        c > 0,
    ensures
        (a * c) / (d * c) == a / d,
{
    let q = a / d;
    let r = a % d;
    vstd::arithmetic::div_mod::lemma_fundamental_div_mod(a, d);
    vstd::arithmetic::div_mod::lemma_mod_bound(a, d);
    assert(a * c == q * (d * c) + r * c && 0 <= r * c < d * c) by (nonlinear_arith)
        requires
            a == d * q + r,
            0 <= r < d,
            c > 0,
    ;
    vstd::arithmetic::div_mod::lemma_fundamental_div_mod_converse(a * c, d * c, q, r * c);
}

/// Rounding up to a multiple is rounding the negative down.
#[verifier::spinoff_prover]
#[verifier::rlimit(40)]
pub proof fn lemma_ceil_div(h: int, p: int)
    requires
        p > 0,
    ensures
        (h + p - 1) / p == -((-h) / p),
{
    let q = (h + p - 1) / p;
    let r = (h + p - 1) % p;
    vstd::arithmetic::div_mod::lemma_fundamental_div_mod(h + p - 1, p);
    vstd::arithmetic::div_mod::lemma_mod_bound(h + p - 1, p);
    assert(-h == (-q) * p + (p - 1 - r)) by (nonlinear_arith)
        requires
            h + p - 1 == p * q + r,
    ;
    vstd::arithmetic::div_mod::lemma_fundamental_div_mod_converse(-h, p, -q, p - 1 - r);
}

/// A number between `q * u` and `q * u + u` has the quotient `q` by `u`.
#[verifier::spinoff_prover]
#[verifier::rlimit(40)]
pub proof fn lemma_quotient(a: int, u: int, q: int)
    requires
        u > 0,
        q * u <= a < q * u + u,
    ensures
        a / u == q,
        a / u * u == q * u,
        a % u == a - q * u,
{
    assert(a == q * u + (a - q * u));
    vstd::arithmetic::div_mod::lemma_fundamental_div_mod_converse(a, u, q, a - q * u);
}

/// The scaled value of a well-formed word lies within the power of two of
/// its exponent: at least `2^62 * 2^E` in magnitude, below `2^63 * 2^E` for
/// a positive word, and not beyond `-2^63 * 2^E` for a negative one.
#[verifier::spinoff_prover]
#[verifier::rlimit(40)]
pub proof fn lemma_scaled_bounds(x: PseudoDouble)
    requires
        x.wf(),
        x.0 != 0,
    ensures
        x.0 > 0 ==> pow2((x.expo() + 62) as nat) <= x.scaled() < pow2((x.expo() + 63) as nat),
        x.0 < 0 ==> -pow2((x.expo() + 63) as nat) <= x.scaled() < -pow2((x.expo() + 62) as nat),
{
    lemma_sign(x);
    lemma2_to64();
    lemma2_to64_rest();
    let e = x.expo() as nat;
    lemma_pow2_adds(62, e);
    lemma_pow2_adds(63, e);
    lemma_pow2_pos(e);
    let p = pow2(e) as int;
    let m = x.mant();
    if m > 0 {
        assert(two62() * p <= m * p < two63() * p) by (nonlinear_arith)
            requires
                two62() <= m < two63(),
                p > 0,
        ;
    } else {
        assert(-(two63() * p) <= m * p < -(two62() * p)) by (nonlinear_arith)
            requires
                -two63() <= m < -two62(),
                p > 0,
        ;
    }
}

/// The floor of a well-formed word with integer and fraction bits is exact.
#[verifier::spinoff_prover]
#[verifier::rlimit(40)]
proof fn lemma_floor_exact_middle(x: PseudoDouble)
    requires
        x.wf(),
        2 <= x.unbiased() < 48,
    ensures
        x.spec_floor().scaled() == x.scaled() / unit() * unit(),
{
    lemma_sign(x);
    lemma2_to64();
    lemma2_to64_rest();
    let e = x.unbiased();
    let m = x.mant();
    let s = x.scaled();
    let u = unit();
    let k = (64 - e) as nat;
    let p = pow2(k) as int;
    let pe = pow2(x.expo() as nat) as int;
    lemma_pow2_pos(k);
    lemma_pow2_pos(x.expo() as nat);
    lemma_pow2_adds(k, x.expo() as nat);
    assert(u == p * pe);
    let fl = floor_to(m, k as int);
    lemma_pow2_multiple(62, k);
    lemma_pow2_multiple(63, k);
    lemma_pow2_multiple(k, 16);
    if m > 0 {
        lemma_floor_to(m, k, two62());
    } else {
        lemma_floor_to(m, k, -two63());
    }
    lemma_multiple_pow2(fl, k, 16);
    crate::pseudo_double::lemma_word_fields(fl, x.expo());
    let r = x.spec_floor();
    assert(r == PseudoDouble((fl + x.expo()) as i64));
    assert(r.mant() == fl && r.expo() == x.expo());
    assert(r.scaled() == fl * pe);
    let q = m / p;
    assert(fl == q * p);
    lemma_cancel_div(m, p, pe);
    assert(s / u == q);
    let t = s / u;
    assert(t * u == (q * p) * pe) by (nonlinear_arith)
        requires
            t == q,
            u == p * pe,
    ;
}

/// The floor is exact: the value of the floor of a well-formed word is the
/// largest integer not above the value of the word.
#[verifier::spinoff_prover]
#[verifier::rlimit(40)]
pub proof fn lemma_floor_exact(x: PseudoDouble)
    requires
        x.wf(),
    ensures
        x.spec_floor().scaled() == x.scaled() / unit() * unit(),
{
    lemma_sign(x);
    lemma2_to64();
    lemma2_to64_rest();
    let e = x.unbiased();
    let s = x.scaled();
    let u = unit();
    lemma_pow2_pos(32832);
    if x.0 == 0 {
        assert(x.spec_floor() == PseudoDouble(0));
        assert(0 * pow2(0) == 0);
        assert(s == 0);
        lemma_quotient(0, u, 0);
        assert(0int / u * u == 0 * u);
    } else if e < 2 {
        lemma_scaled_bounds(x);
        lemma_pow2_monotonic((x.expo() + 63) as nat, 32832);
        let neg_one = PseudoDouble(PD_NEG_ONE_BITS);
        assert(neg_one.mant() == -two63() && neg_one.expo() == 32769);
        lemma_pow2_adds(63, 32769);
        let p9 = pow2(32769) as int;
        assert((-two63()) * p9 == -(two63() * p9)) by (nonlinear_arith);
        assert(neg_one.scaled() == -u);
        assert(PseudoDouble(0).scaled() == 0) by {
            assert(0 * pow2(0) == 0);
        }
        if s < 0 {
            assert(-u <= s < 0);
            lemma_quotient(s, u, -1);
            assert(x.spec_floor() == neg_one);
            assert(s / u * u == (-1) * u);
        } else {
            assert(0 <= s < u);
            lemma_quotient(s, u, 0);
            assert(x.spec_floor() == PseudoDouble(0));
            assert(s / u * u == 0 * u);
        }
    } else if e >= 48 {
        lemma_large_is_integer(x);
    } else {
        lemma_floor_exact_middle(x);
    }
}

/// The ceiling of a well-formed word below two in magnitude is exact.
#[verifier::spinoff_prover]
#[verifier::rlimit(40)]
proof fn lemma_ceil_exact_small(x: PseudoDouble)
    requires
        x.wf(),
        x.0 != 0,
        x.unbiased() < 2,
    ensures
        x.spec_ceil().scaled() == -((-x.scaled()) / unit() * unit()),
{
    lemma_sign(x);
    lemma2_to64();
    lemma2_to64_rest();
    let e = x.unbiased();
    let m = x.mant();
    let s = x.scaled();
    let u = unit();
    lemma_pow2_pos(32832);
    lemma_scaled_bounds(x);
    lemma_pow2_monotonic((x.expo() + 63) as nat, 32832);
    lemma_pow2_adds(62, 32770);
    lemma_pow2_adds(63, 32769);
    if s > 0 {
        let one = PseudoDouble(PD_ONE_BITS);
        assert(one.mant() == two62() && one.expo() == 32770);
        assert(x.spec_ceil() == one);
        assert(one.scaled() == u);
        assert(0 < s < u);
        lemma_quotient(-s, u, -1);
        assert((-s) / u * u == (-1) * u);
        assert(-((-s) / u * u) == u);
    } else if e == 1 && m == -two63() {
        assert(x.spec_ceil() == x);
        let p9 = pow2(32769) as int;
        assert(s == (-two63()) * p9);
        assert((-two63()) * p9 == -(two63() * p9)) by (nonlinear_arith);
        assert(s == -u);
        assert(-s == u);
        lemma_quotient(-s, u, 1);
        assert((-s) / u * u == 1 * u);
        assert(-((-s) / u * u) == -u);
    } else {
        assert(x.spec_ceil() == PseudoDouble(0));
        assert(PseudoDouble(0).scaled() == 0) by {
            assert(0 * pow2(0) == 0);
        }
        let pe = pow2(x.expo() as nat) as int;
        lemma_pow2_pos(x.expo() as nat);
        if e == 1 {
            assert(x.expo() == 32769);
            assert(m * pe > (-two63()) * pe) by (nonlinear_arith)
                requires
                    m > -two63(),
                    pe > 0,
            ;
            assert((-two63()) * pe == -(two63() * pe)) by (nonlinear_arith);
            assert(s > -u);
        } else {
            lemma_pow2_monotonic((x.expo() + 63) as nat, 32831);
            vstd::arithmetic::power2::lemma_pow2_strictly_increases(32831, 32832);
            assert(s > -u);
        }
        assert(0 <= -s < u);
        lemma_quotient(-s, u, 0);
        assert((-s) / u * u == 0 * u);
        assert(-((-s) / u * u) == 0);
    }
}

/// A well-formed word from `2^47` on in magnitude has an integer value.
#[verifier::spinoff_prover]
#[verifier::rlimit(40)]
proof fn lemma_large_is_integer(x: PseudoDouble)
    requires
        x.wf(),
        x.unbiased() >= 48,
    ensures
        x.scaled() / unit() * unit() == x.scaled(),
        -((-x.scaled()) / unit() * unit()) == x.scaled(),
        x.scaled() % unit() == 0,
{
    lemma_sign(x);
    lemma2_to64();
    lemma2_to64_rest();
    let m = x.mant();
    let s = x.scaled();
    let u = unit();
    lemma_pow2_pos(32832);
    let q = m / 65536;
    let t = pow2((x.expo() - 32816) as nat) as int;
    lemma_pow2_adds(16, 32816);
    lemma_pow2_adds((x.expo() - 32816) as nat, 32816);
    let c = q * t;
    assert(s == c * u) by (nonlinear_arith)
        requires
            s == m * pow2(x.expo() as nat),
            m == 65536 * q,
            pow2(x.expo() as nat) == t * pow2(32816),
            u == 65536 * pow2(32816),
            c == q * t,
    ;
    assert(-s == (-c) * u) by (nonlinear_arith)
        requires
            s == c * u,
    ;
    lemma_quotient(s, u, c);
    lemma_quotient(-s, u, -c);
    assert(s / u * u == s);
    assert((-s) / u * u == -s);
}

/// The ceiling of a well-formed word with integer and fraction bits is exact.
#[verifier::spinoff_prover]
#[verifier::rlimit(40)]
proof fn lemma_ceil_exact_middle(x: PseudoDouble)
    requires
        x.wf(),
        2 <= x.unbiased() < 48,
    ensures
        x.spec_ceil().scaled() == -((-x.scaled()) / unit() * unit()),
{
    lemma_sign(x);
    let e = x.unbiased();
    let m = x.mant();
    let s = x.scaled();
    let u = unit();
    let k = (63 - e) as nat;
    let p = pow2(k) as int;
    let h = m / 2;
    let vr = floor_to(h + p - 1, k as int);
    let pe = pow2((x.expo() + 1) as nat) as int;
    lemma_ceil_operand(m, k);
    lemma_lead_bits(vr);
    lemma_assemble_exact(vr, x.expo() + 1);
    lemma_pow2_pos(k);
    lemma_pow2_pos((x.expo() + 1) as nat);
    lemma_pow2_adds(k, (x.expo() + 1) as nat);
    vstd::arithmetic::power2::lemma_pow2_unfold((x.expo() + 1) as nat);
    let r = x.spec_ceil();
    assert(r == assemble(vr, x.expo() + 1));
    assert(r.scaled() == vr * pe);
    assert(u == p * pe);
    assert(s == h * pe) by (nonlinear_arith)
        requires
            s == m * pow2(x.expo() as nat),
            m == 2 * h,
            pe == 2 * pow2(x.expo() as nat),
    ;
    assert(-s == (-h) * pe) by (nonlinear_arith)
        requires
            s == h * pe,
    ;
    let q = (h + p - 1) / p;
    assert(vr == q * p);
    lemma_ceil_div(h, p);
    assert(q == -((-h) / p));
    lemma_cancel_div(-h, p, pe);
    assert((-s) / u == (-h) / p);
    let t = (-s) / u;
    assert(t == -q);
    assert(t * u == -((q * p) * pe)) by (nonlinear_arith)
        requires
            t == -q,
            u == p * pe,
    ;
    assert(r.scaled() == (q * p) * pe);
}

/// The ceiling is exact: the value of the ceiling of a well-formed word is
/// the smallest integer not below the value of the word.
#[verifier::spinoff_prover]
#[verifier::rlimit(40)]
pub proof fn lemma_ceil_exact(x: PseudoDouble)
    requires
        x.wf(),
    ensures
        x.spec_ceil().scaled() == -((-x.scaled()) / unit() * unit()),
{
    let e = x.unbiased();
    let u = unit();
    lemma_pow2_pos(32832);
    if x.0 == 0 {
        assert(x.spec_ceil() == PseudoDouble(0));
        assert(0 * pow2(0) == 0);
        assert(x.scaled() == 0);
        lemma_quotient(0, u, 0);
        assert(0int / u * u == 0 * u);
    } else if e < 2 {
        lemma_ceil_exact_small(x);
    } else if e >= 48 {
        lemma_large_is_integer(x);
    } else {
        lemma_ceil_exact_middle(x);
    }
}

/// The mantissa that a binary64 fraction gives: the fraction under its
/// implied one, moved up ten places, less its low six bits.
#[verifier::spinoff_prover]
#[verifier::rlimit(40)]
pub proof fn lemma_double_mantissa(frac: int)
    requires
        0 <= frac < 0x10_0000_0000_0000,
    ensures
        trunc16((0x10_0000_0000_0000 + frac) * 1024) == (0x10_0000_0000_0000 + frac - frac % 64)
            * 1024,
        two62() <= (0x10_0000_0000_0000 + frac - frac % 64) * 1024 < two63(),
        ((0x10_0000_0000_0000 + frac - frac % 64) * 1024) % 65536 == 0,
        ((0x10_0000_0000_0000 + frac - frac % 64) * 1024) % two62() == (frac - frac % 64) * 1024,
{
    let q = frac / 64;
    let r = frac % 64;
    let v = (0x10_0000_0000_0000 + frac) * 1024;
    let m = (0x10_0000_0000_0000 + frac - r) * 1024;
    assert(m == (0x4000_0000_0000 + q) * 65536);
    assert(v == (0x4000_0000_0000 + q) * 65536 + r * 1024);
    vstd::arithmetic::div_mod::lemma_fundamental_div_mod_converse(
        v,
        65536,
        0x4000_0000_0000 + q,
        r * 1024,
    );
    vstd::arithmetic::div_mod::lemma_fundamental_div_mod_converse(m, 65536, 0x4000_0000_0000 + q, 0);
    vstd::arithmetic::div_mod::lemma_fundamental_div_mod_converse(m, two62(), 1, (frac - r) * 1024);
}

/// A binary64 bit pattern is its sign bit, its exponent field and its
/// fraction put together.
#[verifier::spinoff_prover]
#[verifier::rlimit(40)]
proof fn lemma_bits_split(bits: int)
    requires
        0 <= bits < two64(),
    ensures
        ({
            let frac = bits % 0x10_0000_0000_0000;
            let raw = (bits / 0x10_0000_0000_0000) % 2048;
            let sign = if bits >= two63() { two63() } else { 0 };
            &&& 0 <= frac < 0x10_0000_0000_0000
            &&& 0 <= raw < 2048
            &&& bits == sign + raw * 0x10_0000_0000_0000 + frac
            &&& bits % 64 == frac % 64
            &&& bits % two63() == raw * 0x10_0000_0000_0000 + frac
        }),
{
    let q = bits / 0x10_0000_0000_0000;
    let frac = bits % 0x10_0000_0000_0000;
    let raw = q % 2048;
    let top = q / 2048;
    assert(bits == 0x10_0000_0000_0000 * q + frac);
    assert(q == 2048 * top + raw);
    assert(0 <= q < 4096);
    assert(top == 0 || top == 1);
    let rest = raw * 0x10_0000_0000_0000 + frac;
    assert(bits == two63() * top + rest);
    assert(0 <= rest < two63());
    vstd::arithmetic::div_mod::lemma_fundamental_div_mod_converse(bits, two63(), top, rest);
    let f6 = frac / 64;
    let r6 = frac % 64;
    assert(bits == 64 * (q * 0x4000_0000_0000 + f6) + r6);
    vstd::arithmetic::div_mod::lemma_fundamental_div_mod_converse(
        bits,
        64,
        q * 0x4000_0000_0000 + f6,
        r6,
    );
}

/// The fields of the word that a binary64 bit pattern other than the zeros
/// gives.
#[verifier::spinoff_prover]
#[verifier::rlimit(40)]
pub proof fn lemma_from_double_fields(bits: int)
    requires
        0 <= bits < two64(),
        bits % two63() != 0,
    ensures
        ({
            let frac = bits % 0x10_0000_0000_0000;
            let raw = (bits / 0x10_0000_0000_0000) % 2048;
            let m = (0x10_0000_0000_0000 + frac - frac % 64) * 1024;
            let x = spec_from_double_bits(bits);
            &&& x.0 != 0
            &&& bits >= two63() && frac == 0 ==> x.mant() == -two63() && x.expo() == raw + 31746
            &&& bits >= two63() && frac != 0 ==> x.mant() == -m && x.expo() == raw + 31747
            &&& bits < two63() ==> x.mant() == m && x.expo() == raw + 31747
        }),
{
    let frac = bits % 0x10_0000_0000_0000;
    let raw = (bits / 0x10_0000_0000_0000) % 2048;
    let e = raw + 31747;
    lemma_double_mantissa(frac);
    let m = (0x10_0000_0000_0000 + frac - frac % 64) * 1024;
    assert(trunc16((0x10_0000_0000_0000 + frac) * 1024) == m);
    let x = spec_from_double_bits(bits);
    if bits >= two63() && frac == 0 {
        crate::pseudo_double::lemma_word_fields(-two63(), e - 1);
        assert(x == PseudoDouble((-two63() + e - 1) as i64));
        assert(-two63() + e - 1 == -two63() + (e - 1));
    } else if bits >= two63() {
        crate::pseudo_double::lemma_word_fields(-m, e);
        assert(x == PseudoDouble((-m + e) as i64));
    } else {
        crate::pseudo_double::lemma_word_fields(m, e);
        assert(x == PseudoDouble((m + e) as i64));
    }
}

/// The binary64 bit pattern of a word with a normalized mantissa of
/// magnitude `a` and an exponent within the binary64 range.
#[verifier::spinoff_prover]
#[verifier::rlimit(40)]
proof fn lemma_to_double_fields(x: PseudoDouble, a: int, raw: int, negative: bool)
    requires
        x.0 != 0,
        two62() <= a < two63(),
        x.mant() == (if negative { -a } else { a }),
        x.expo() == raw + 31747,
        0 <= raw < 2048,
    ensures
        x.spec_to_double_bits() == (a % two62()) / 1024 + raw * 0x10_0000_0000_0000 + (if negative {
            two63()
        } else {
            0
        }),
{
    assert(x.double_exponent() == raw);
    assert(x.mant() != -two63());
}

/// The binary64 bit pattern of a word with the mantissa `-2^63`.
#[verifier::spinoff_prover]
#[verifier::rlimit(40)]
proof fn lemma_to_double_power(x: PseudoDouble, raw: int)
    requires
        x.0 != 0,
        x.mant() == -two63(),
        x.expo() == raw + 31746,
        0 <= raw < 2048,
    ensures
        x.spec_to_double_bits() == raw * 0x10_0000_0000_0000 + two63(),
{
    assert(x.double_exponent() == raw - 1);
}

/// Conversion through binary64 is exact up to the mantissa width: a bit
/// pattern other than the two zeros, made a packed real and a bit pattern
/// again, comes back with the low six bits of its fraction cleared and
/// nothing else changed.
#[verifier::spinoff_prover]
#[verifier::rlimit(40)]
pub proof fn lemma_double_bits_round_trip(bits: int)
    requires
        0 <= bits < two64(),
        bits % two63() != 0,
    ensures
        spec_from_double_bits(bits).spec_to_double_bits() == bits - bits % 64,
{
    let frac = bits % 0x10_0000_0000_0000;
    let raw = (bits / 0x10_0000_0000_0000) % 2048;
    lemma_bits_split(bits);
    lemma_double_mantissa(frac);
    lemma_from_double_fields(bits);
    let m = (0x10_0000_0000_0000 + frac - frac % 64) * 1024;
    let x = spec_from_double_bits(bits);
    if bits >= two63() && frac == 0 {
        lemma_to_double_power(x, raw);
    } else {
        lemma_to_double_fields(x, m, raw, bits >= two63());
        assert((m % two62()) / 1024 == frac - frac % 64);
    }
}

/// Decoding rounds down: a well-formed word with an integer bit whose value
/// fits in 64 bits decodes to the largest integer not above its value.
#[verifier::spinoff_prover]
#[verifier::rlimit(40)]
pub proof fn lemma_decode_is_floor(x: PseudoDouble)
    requires
        x.wf(),
        0 < x.unbiased() <= 64,
    ensures
        x.decode_int() == x.scaled() / unit(),
{
    lemma_sign(x);
    let e = x.unbiased();
    let k = (64 - e) as nat;
    let p = pow2(k) as int;
    let pe = pow2(x.expo() as nat) as int;
    lemma_pow2_pos(k);
    lemma_pow2_pos(x.expo() as nat);
    lemma_pow2_adds(k, x.expo() as nat);
    lemma_cancel_div(x.mant(), p, pe);
    if x.0 == 0 {
        assert(0int / p == 0) by (nonlinear_arith)
            requires
                p > 0,
        ;
    }
}

/// Half of a normalized mantissa, rounded to the nearest multiple of `2^k`
/// with halves away from zero: it is not zero, has the sign of the
/// mantissa, and is no more than `2^(k - 1)` away from the half.
#[verifier::spinoff_prover]
#[verifier::rlimit(40)]
proof fn lemma_round_operand(m: int, k: nat)
    requires
        normal_mantissa(m),
        m % 65536 == 0,
        16 <= k <= 62,
    ensures
        ({
            let half = pow2((k - 1) as nat) as int;
            let bias = if m > 0 { half } else { half - 1 };
            let vr = floor_to(m / 2 + bias, k as int);
            &&& vr != 0
            &&& (vr < 0) == (m < 0)
            &&& -two62() <= vr <= two62()
            &&& -half <= vr - m / 2 <= half
            &&& vr % 65536 == 0
            &&& vr % (pow2(k) as int) == 0
        }),
{
    lemma2_to64();
    lemma2_to64_rest();
    let p = pow2(k) as int;
    let half = pow2((k - 1) as nat) as int;
    let h = m / 2;
    let bias = if m > 0 { half } else { half - 1 };
    let vr = floor_to(h + bias, k as int);
    lemma_pow2_pos(k);
    vstd::arithmetic::power2::lemma_pow2_unfold(k);
    lemma_pow2_monotonic(16, k);
    lemma_pow2_monotonic(k, 62);
    lemma_pow2_multiple(62, k);
    lemma_pow2_multiple(k, 16);
    lemma_pow2_multiple(k, k);
    if m > 0 {
        lemma_floor_to(h + bias, k, p);
    } else {
        lemma_floor_to(h + bias, k, -two62());
    }
    lemma_multiple_pow2(vr, k, 16);
    let q = (h + bias) / p;
    let t = pow2((62 - k) as nat) as int;
    lemma_pow2_adds(k, (62 - k) as nat);
    lemma_pow2_pos((62 - k) as nat);
    assert(vr == q * p);
    if m > 0 {
        assert(q <= t) by (nonlinear_arith)
            requires
                q * p <= h + bias,
                h + bias < p * t + p,
                p > 0,
        ;
        assert(q * p <= t * p) by (nonlinear_arith)
            requires
                q <= t,
                p > 0,
        ;
        assert(t * p == p * t) by (nonlinear_arith);
    } else {
        assert(q <= -1) by (nonlinear_arith)
            requires
                q * p <= h + bias,
                h + bias < 0,
                p > 0,
        ;
        assert(q * p <= -p) by (nonlinear_arith)
            requires
                q <= -1,
                p > 0,
        ;
    }
}

/// Rounding a well-formed word with an integer bit and fraction bits is to
/// the nearest integer.
#[verifier::spinoff_prover]
#[verifier::rlimit(40)]
proof fn lemma_round_nearest_middle(x: PseudoDouble)
    requires
        x.wf(),
        1 <= x.unbiased() < 48,
    ensures
        x.spec_round().wf(),
        x.spec_round().scaled() % unit() == 0,
        -unit() <= 2 * (x.spec_round().scaled() - x.scaled()) <= unit(),
{
    lemma_sign(x);
    lemma2_to64();
    lemma2_to64_rest();
    let e = x.unbiased();
    let m = x.mant();
    let s = x.scaled();
    let u = unit();
    lemma_pow2_pos(32832);
    let k = (63 - e) as nat;
    let p = pow2(k) as int;
    let half = pow2((k - 1) as nat) as int;
    let h = m / 2;
    let bias = if m > 0 { half } else { half - 1 };
    let vr = floor_to(h + bias, k as int);
    assert(pow2((62 - e) as nat) == half);
    lemma_round_operand(m, k);
    lemma_lead_bits(vr);
    lemma_assemble_exact(vr, x.expo() + 1);
    let pe = pow2((x.expo() + 1) as nat) as int;
    lemma_pow2_pos((x.expo() + 1) as nat);
    lemma_pow2_adds(k, (x.expo() + 1) as nat);
    lemma_pow2_adds((k - 1) as nat, (x.expo() + 1) as nat);
    vstd::arithmetic::power2::lemma_pow2_unfold((x.expo() + 1) as nat);
    vstd::arithmetic::power2::lemma_pow2_unfold(32832);
    let r = x.spec_round();
    assert(r == assemble(vr, x.expo() + 1));
    assert(r.scaled() == vr * pe);
    assert(u == p * pe);
    assert(2 * (half * pe) == u);
    assert(s == h * pe) by (nonlinear_arith)
        requires
            s == m * pow2(x.expo() as nat),
            m == 2 * h,
            pe == 2 * pow2(x.expo() as nat),
    ;
    let d = vr - h;
    let rs = r.scaled();
    assert(rs - s == d * pe) by (nonlinear_arith)
        requires
            rs == vr * pe,
            s == h * pe,
            d == vr - h,
    ;
    assert(-(half * pe) <= d * pe <= half * pe) by (nonlinear_arith)
        requires
            -half <= d <= half,
            pe > 0,
    ;
    let q = vr / p;
    vstd::arithmetic::div_mod::lemma_fundamental_div_mod(vr, p);
    assert(vr == p * q);
    assert(rs == q * u) by (nonlinear_arith)
        requires
            rs == vr * pe,
            vr == p * q,
            u == p * pe,
    ;
    lemma_quotient(rs, u, q);
}

/// Rounding is to the nearest integer: the rounded word of a well-formed
/// word is well-formed, its value is an integer, and it is no more than one
/// half away from the value of the word.
#[verifier::spinoff_prover]
#[verifier::rlimit(40)]
pub proof fn lemma_round_nearest(x: PseudoDouble)
    requires
        x.wf(),
    ensures
        x.spec_round().wf(),
        x.spec_round().scaled() % unit() == 0,
        -unit() <= 2 * (x.spec_round().scaled() - x.scaled()) <= unit(),
{
    lemma_sign(x);
    lemma2_to64();
    lemma2_to64_rest();
    let e = x.unbiased();
    let m = x.mant();
    let s = x.scaled();
    let u = unit();
    lemma_pow2_pos(32832);
    vstd::arithmetic::power2::lemma_pow2_unfold(32832);
    if x.0 == 0 {
        assert(x.spec_round() == PseudoDouble(0));
        assert(0 * pow2(0) == 0);
        lemma_quotient(0, u, 0);
    } else if e < 1 {
        lemma_scaled_bounds(x);
        lemma_pow2_monotonic((x.expo() + 63) as nat, 32831);
        assert(PseudoDouble(0).scaled() == 0) by {
            assert(0 * pow2(0) == 0);
        }
        lemma_quotient(0, u, 0);
        if e == 0 && m == -two63() {
            crate::pseudo_double::lemma_word_fields(-two63(), 32769);
            let r = x.spec_round();
            assert(x.0 == -two63() + 32768);
            assert(r == PseudoDouble((-two63() + 32769) as i64));
            assert(r.mant() == -two63() && r.expo() == 32769);
            lemma_pow2_adds(63, 32769);
            lemma_pow2_adds(63, 32768);
            let p9 = pow2(32769) as int;
            let p8 = pow2(32768) as int;
            assert((-two63()) * p9 == -(two63() * p9)) by (nonlinear_arith);
            assert((-two63()) * p8 == -(two63() * p8)) by (nonlinear_arith);
            assert(r.scaled() == -u);
            assert(2 * s == -u);
            lemma_quotient(-u, u, -1);
        } else {
            assert(x.spec_round() == PseudoDouble(0));
            assert(-u <= 2 * s <= u);
        }
    } else if e >= 48 {
        lemma_large_is_integer(x);
    } else {
        lemma_round_nearest_middle(x);
    }
}

/// The value of `s` rounded to the nearest multiple of `u`, halves away from
/// zero.
pub open spec fn round_half_away(s: int, u: int) -> int {
    if s >= 0 {
        (2 * s + u) / (2 * u) * u
    } else {
        -((-2 * s + u) / (2 * u) * u)
    }
}

/// Rounding a well-formed word with an integer bit and fraction bits sends
/// halves away from zero.
#[verifier::spinoff_prover]
#[verifier::rlimit(60)]
proof fn lemma_round_half_away_middle(x: PseudoDouble)
    requires
        x.wf(),
        1 <= x.unbiased() < 48,
    ensures
        x.spec_round().scaled() == round_half_away(x.scaled(), unit()),
{
    lemma_sign(x);
    lemma2_to64();
    lemma2_to64_rest();
    let e = x.unbiased();
    let m = x.mant();
    let s = x.scaled();
    let u = unit();
    lemma_pow2_pos(32832);
    let k = (63 - e) as nat;
    let p = pow2(k) as int;
    let half = pow2((k - 1) as nat) as int;
    let h = m / 2;
    let bias = if m > 0 { half } else { half - 1 };
    let vr = floor_to(h + bias, k as int);
    assert(pow2((62 - e) as nat) == half);
    lemma_round_operand(m, k);
    lemma_lead_bits(vr);
    lemma_assemble_exact(vr, x.expo() + 1);
    let pe = pow2((x.expo() + 1) as nat) as int;
    lemma_pow2_pos((x.expo() + 1) as nat);
    lemma_pow2_pos(k);
    lemma_pow2_adds(k, (x.expo() + 1) as nat);
    vstd::arithmetic::power2::lemma_pow2_unfold((x.expo() + 1) as nat);
    vstd::arithmetic::power2::lemma_pow2_unfold(k);
    let r = x.spec_round();
    assert(r == assemble(vr, x.expo() + 1));
    let rs = r.scaled();
    assert(rs == vr * pe);
    assert(u == p * pe);
    assert(p == 2 * half);
    assert(s == h * pe) by (nonlinear_arith)
        requires
            s == m * pow2(x.expo() as nat),
            m == 2 * h,
            pe == 2 * pow2(x.expo() as nat),
    ;
    let q = (h + bias) / p;
    assert(vr == q * p);
    assert(rs == q * u) by (nonlinear_arith)
        requires
            rs == vr * pe,
            vr == q * p,
            u == p * pe,
    ;
    if m > 0 {
        assert(s > 0) by (nonlinear_arith)
            requires
                s == h * pe,
                h > 0,
                pe > 0,
        ;
        let top = 2 * s + u;
        assert(top == (2 * h + p) * pe) by (nonlinear_arith)
            requires
                top == 2 * s + u,
                s == h * pe,
                u == p * pe,
        ;
        assert(2 * u == (2 * p) * pe) by (nonlinear_arith)
            requires
                u == p * pe,
        ;
        lemma_cancel_div(2 * h + p, 2 * p, pe);
        lemma_cancel_div(h + half, p, 2);
        assert((h + half) * 2 == 2 * h + p);
        assert(p * 2 == 2 * p);
        assert(top / (2 * u) == q);
    } else {
        assert(s < 0) by (nonlinear_arith)
            requires
                s == h * pe,
                h < 0,
                pe > 0,
        ;
        let top = -2 * s + u;
        assert(top == (-2 * h + p) * pe) by (nonlinear_arith)
            requires
                top == -2 * s + u,
                s == h * pe,
                u == p * pe,
        ;
        assert(2 * u == (2 * p) * pe) by (nonlinear_arith)
            requires
                u == p * pe,
        ;
        lemma_cancel_div(-2 * h + p, 2 * p, pe);
        lemma_cancel_div(-h + half, p, 2);
        assert((-h + half) * 2 == -2 * h + p);
        assert(p * 2 == 2 * p);
        lemma_ceil_div(h - half, p);
        assert(h - half + p - 1 == h + bias);
        assert(-(h - half) == -h + half);
        assert(q == -((-h + half) / p));
        let t = top / (2 * u);
        assert(t == (-h + half) / p);
        assert(t * u == -(q * u)) by (nonlinear_arith)
            requires
                q == -t,
        ;
    }
}

/// Rounding sends halves away from zero: the value of the rounded word of a
/// well-formed word is the magnitude of the value plus one half, rounded
/// down, with the sign of the value.
#[verifier::spinoff_prover]
#[verifier::rlimit(60)]
pub proof fn lemma_round_half_away(x: PseudoDouble)
    requires
        x.wf(),
    ensures
        x.spec_round().scaled() == round_half_away(x.scaled(), unit()),
{
    lemma_sign(x);
    lemma2_to64();
    lemma2_to64_rest();
    let e = x.unbiased();
    let m = x.mant();
    let s = x.scaled();
    let u = unit();
    lemma_pow2_pos(32832);
    vstd::arithmetic::power2::lemma_pow2_unfold(32832);
    if x.0 == 0 {
        assert(x.spec_round() == PseudoDouble(0));
        assert(0 * pow2(0) == 0);
        assert(s == 0);
        lemma_quotient(u, 2 * u, 0);
        assert((u) / (2 * u) == 0);
        assert((u) / (2 * u) * u == (0) * u);
    } else if e < 1 {
        lemma_scaled_bounds(x);
        lemma_pow2_monotonic((x.expo() + 63) as nat, 32831);
        assert(PseudoDouble(0).scaled() == 0) by {
            assert(0 * pow2(0) == 0);
        }
        if e == 0 && m == -two63() {
            crate::pseudo_double::lemma_word_fields(-two63(), 32769);
            let r = x.spec_round();
            assert(x.0 == -two63() + 32768);
            assert(r == PseudoDouble((-two63() + 32769) as i64));
            lemma_pow2_adds(63, 32769);
            lemma_pow2_adds(63, 32768);
            let p9 = pow2(32769) as int;
            let p8 = pow2(32768) as int;
            assert((-two63()) * p9 == -(two63() * p9)) by (nonlinear_arith);
            assert((-two63()) * p8 == -(two63() * p8)) by (nonlinear_arith);
            assert(r.scaled() == -u);
            assert(2 * s == -u);
            lemma_quotient(-2 * s + u, 2 * u, 1);
            assert((-2 * s + u) / (2 * u) == 1);
            assert((-2 * s + u) / (2 * u) * u == (1) * u);
        } else {
            assert(x.spec_round() == PseudoDouble(0));
            assert(-u < 2 * s < u) by {
                lemma_pow2_pos(x.expo() as nat);
                let pe = pow2(x.expo() as nat) as int;
                if m < 0 && x.expo() == 32768 {
                    assert(m * pe > (-two63()) * pe) by (nonlinear_arith)
                        requires
                            m > -two63(),
                            pe > 0,
                    ;
                    lemma_pow2_adds(63, 32768);
                    assert((-two63()) * pe == -(two63() * pe)) by (nonlinear_arith);
                } else if m < 0 {
                    lemma_pow2_monotonic((x.expo() + 63) as nat, 32830);
                    vstd::arithmetic::power2::lemma_pow2_unfold(32831);
                }
            }
            if s >= 0 {
                lemma_quotient(2 * s + u, 2 * u, 0);
                assert((2 * s + u) / (2 * u) == 0);
                assert((2 * s + u) / (2 * u) * u == (0) * u);
            } else {
                lemma_quotient(-2 * s + u, 2 * u, 0);
                assert((-2 * s + u) / (2 * u) == 0);
                assert((-2 * s + u) / (2 * u) * u == (0) * u);
            }
        }
    } else if e >= 48 {
        lemma_large_is_integer(x);
        let c = s / u;
        assert(s == c * u);
        if s >= 0 {
            assert(c >= 0) by (nonlinear_arith)
                requires
                    s == c * u,
                    s >= 0,
                    u > 0,
            ;
            assert(c * (2 * u) <= 2 * s + u < c * (2 * u) + 2 * u) by (nonlinear_arith)
                requires
                    s == c * u,
                    u > 0,
            ;
            lemma_quotient(2 * s + u, 2 * u, c);
            assert((2 * s + u) / (2 * u) == c);
            assert((2 * s + u) / (2 * u) * u == (c) * u);
        } else {
            let d = -c;
            assert(d * (2 * u) <= -2 * s + u < d * (2 * u) + 2 * u) by (nonlinear_arith)
                requires
                    s == c * u,
                    d == -c,
                    u > 0,
            ;
            lemma_quotient(-2 * s + u, 2 * u, d);
            assert((-2 * s + u) / (2 * u) == d);
            assert((-2 * s + u) / (2 * u) * u == (d) * u);
            assert(-(d * u) == s) by (nonlinear_arith)
                requires
                    s == c * u,
                    d == -c,
            ;
        }
    } else {
        lemma_round_half_away_middle(x);
    }
}

/// The only shift that normalizes a nonzero word is the one that the count
/// of its leading bits gives.
#[verifier::spinoff_prover]
#[verifier::rlimit(40)]
pub proof fn lemma_lead_bits_unique(v: int, k: nat)
    requires
        -two63() <= v < two63(),
        v != 0,
        k <= 63,
        normal_mantissa(v * pow2(k)),
    ensures
        lead_bits(v) - 1 == k,
{
    lemma_lead_bits(v);
    let lb = (lead_bits(v) - 1) as nat;
    lemma_pow2_pos(k);
    lemma_pow2_pos(lb);
    let pk = pow2(k) as int;
    let pl = pow2(lb) as int;
    if lb < k {
        lemma_pow2_monotonic(lb + 1, k);
        vstd::arithmetic::power2::lemma_pow2_unfold(lb + 1);
        assert(false) by (nonlinear_arith)
            requires
                pk >= 2 * pl,
                pl > 0,
                v != 0,
                two62() <= v * pl < two63() || -two63() <= v * pl < -two62(),
                two62() <= v * pk < two63() || -two63() <= v * pk < -two62(),
        ;
    } else if k < lb {
        lemma_pow2_monotonic(k + 1, lb);
        vstd::arithmetic::power2::lemma_pow2_unfold(k + 1);
        assert(false) by (nonlinear_arith)
            requires
                pl >= 2 * pk,
                pk > 0,
                v != 0,
                two62() <= v * pl < two63() || -two63() <= v * pl < -two62(),
                two62() <= v * pk < two63() || -two63() <= v * pk < -two62(),
        ;
    }
}

/// The word of the power of two `2^k`.
pub open spec fn power_of_two(k: int) -> PseudoDouble {
    PseudoDouble((two62() + k + 32770) as i64)
}

/// The square root of an even power of two is exact: its square is the
/// number again.
#[verifier::spinoff_prover]
#[verifier::rlimit(40)]
pub proof fn lemma_sqrt_of_even_power(j: int)
    requires
        -16385 <= j <= 16382,
    ensures
        power_of_two(2 * j).spec_sqrt() == power_of_two(j),
        power_of_two(j).spec_mul(power_of_two(j)) == power_of_two(2 * j),
{
    lemma2_to64();
    lemma2_to64_rest();
    let x = power_of_two(2 * j);
    crate::pseudo_double::lemma_word_fields(two62(), 2 * j + 32770);
    assert(x.mant() == two62() && x.expo() == 2 * j + 32770);
    assert(x.expo() % 2 == 0);
    assert(x.root_is_exact());
    assert(x.root_operand().1 == j + 16385);
    let r = power_of_two(j);
    crate::pseudo_double::lemma_word_fields(two62(), j + 32770);
    assert(r.mant() == two62() && r.expo() == j + 32770);
    assert(x.spec_sqrt() == r);
    let vr = mul_hi(two62(), two62());
    assert(vr == 0x1000_0000_0000_0000);
    assert(vr * pow2(2) == two62());
    lemma_lead_bits_unique(vr, 2);
    crate::pseudo_double::lemma_pack(two62(), 2 * j + 32770);
    assert(r.spec_mul(r) == crate::pseudo_double::pack(two62(), 2 * j + 32770));
}

/// The kernels are exact at zero: the logarithm of one is zero, and two to
/// the power zero is one.
#[verifier::spinoff_prover]
#[verifier::rlimit(40)]
pub proof fn lemma_kernels_at_zero()
    ensures
        crate::kernels::log2_64_fixed_spec(0) == 0,
        crate::kernels::exp2_64_fixed_spec(0) == two62(),
        crate::kernels::sin_rev_64_fixed_spec(0) == 0,
        crate::kernels::atan_rev_64_fixed_spec(0) == 0,
{
    assert(forall|u: int| #[trigger] mul_hi(u, 0) == 0) by {
        assert forall|u: int| #[trigger] mul_hi(u, 0) == 0 by {
            assert(u * 0 == 0);
        }
    }
}

/// The base-2 logarithm of a power of two is its exponent, exactly.
#[verifier::spinoff_prover]
#[verifier::rlimit(40)]
pub proof fn lemma_log2_of_power(k: int)
    requires
        -32770 <= k <= 32765,
    ensures
        power_of_two(k).spec_log2() == encode_int(k),
{
    lemma2_to64();
    lemma2_to64_rest();
    lemma_kernels_at_zero();
    let x = power_of_two(k);
    crate::pseudo_double::lemma_word_fields(two62(), k + 32770);
    assert(x.mant() == two62() && x.expo() == k + 32770);
    assert(x.log_operand() == 0);
    if k == 0 {
        assert(x.log2_parts() == (0int, 0int));
    } else if k == -1 {
        assert(pow2(0) == 1 && pow2(63) == 0x8000_0000_0000_0000);
        assert((-two63()) * pow2(0) == -two63());
        assert((-1) * pow2(63) == -two63());
        lemma_lead_bits_unique(-two63(), 0);
        assert(x.log2_parts() == (-two63(), 32769int));
        lemma_lead_bits_unique(-1, 63);
        assert(encode_int(-1) == crate::pseudo_double::pack(-two63(), 32769));
    } else {
        lemma_lead_bits(k);
        let lb = lead_bits(k);
        lemma_wrap64_id(k * pow2((lb - 1) as nat));
        assert(0int / (pow2((64 - lb) as nat) as int) == 0) by {
            lemma_pow2_pos((64 - lb) as nat);
            let p = pow2((64 - lb) as nat) as int;
            assert(0int / p == 0) by (nonlinear_arith)
                requires
                    p > 0,
            ;
        }
        assert(x.log2_parts() == (k * pow2((lb - 1) as nat), 32833 - lb));
    }
}

/// Two to the power of an integer is the power of two, exactly.
#[verifier::spinoff_prover]
#[verifier::rlimit(40)]
pub proof fn lemma_exp2_of_integer(n: int)
    requires
        -32768 <= n <= 32765,
    ensures
        encode_int(n).spec_exp2() == power_of_two(n),
{
    lemma2_to64();
    lemma2_to64_rest();
    lemma_kernels_at_zero();
    crate::pseudo_double::lemma_pack(two62(), n + 32770);
    assert(crate::pseudo_double::pack(two62(), n + 32770) == power_of_two(n));
    if n != 0 {
        lemma_encode_int_exact(n);
        let x = encode_int(n);
        let lb = (lead_bits(n) - 1) as nat;
        let m = x.mant();
        let e = x.unbiased();
        assert(e == 64 - lb);
        assert(m == n * pow2(lb));
        lemma_sign(x);
        lemma_bit_len_upper(if n < 0 { (-n - 1) as nat } else { n as nat }, 15);
        assert(lb >= 48);
        let p = pow2(lb) as int;
        lemma_pow2_pos(lb);
        lemma_pow2_adds(lb, (64 - lb) as nat);
        let h = pow2((64 - lb) as nat) as int;
        assert(m * h == 0 + n * two64()) by (nonlinear_arith)
            requires
                m == n * p,
                p * h == two64(),
        ;
        crate::bits::lemma_wrap64_add_multiple(0, n);
        assert(crate::explog::frac64_of(m, e) == 0);
        if e >= 2 {
            vstd::arithmetic::div_mod::lemma_div_multiples_vanish(n, p);
            assert(n * p == p * n) by (nonlinear_arith);
            assert(m / p == n);
            assert(crate::explog::whole_of(m, e) == n);
        } else {
            assert(lb == 63);
            lemma_lead_bits(n);
            assert(n == -1) by (nonlinear_arith)
                requires
                    n != 0,
                    p == two63(),
                    two62() <= n * p < two63() || -two63() <= n * p < -two62(),
            ;
            assert(crate::explog::whole_of(m, e) == -1);
        }
        assert(x.spec_exp2() == crate::explog::exp2_value(m, e));
    }
}

/// The exponential undoes the logarithm exactly at the powers of two.
#[verifier::spinoff_prover]
#[verifier::rlimit(40)]
pub proof fn lemma_exp2_log2_of_power(k: int)
    requires
        -32768 <= k <= 32765,
    ensures
        power_of_two(k).spec_log2().spec_exp2() == power_of_two(k),
{
    lemma_log2_of_power(k);
    lemma_exp2_of_integer(k);
}

} // verus!
