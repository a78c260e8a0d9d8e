//! Word-level primitives on 64-bit integers, each with its meaning in
//! unbounded integer arithmetic: shifts as multiplication and floor division
//! by powers of two, masks as remainders, the high word of a 128-bit product,
//! and the count of redundant leading bits.

use vstd::prelude::*;
use vstd::arithmetic::power2::{pow2, lemma_pow2_pos, lemma_pow2_unfold, lemma2_to64, lemma2_to64_rest, lemma_pow2_adds, lemma_pow2_strictly_increases};
use vstd::std_specs::bits::u64_leading_zeros;

verus! {

/// 2^64 as an integer.
pub open spec fn two64() -> int {
    0x1_0000_0000_0000_0000
}

/// 2^63 as an integer.
pub open spec fn two63() -> int {
    0x8000_0000_0000_0000
}

/// 2^62 as an integer.
pub open spec fn two62() -> int {
    0x4000_0000_0000_0000
}

/// The signed 64-bit integer congruent to `v` modulo 2^64.
pub open spec fn wrap64(v: int) -> int {
    (v + two63()) % two64() - two63()
}

/// The unsigned 64-bit integer congruent to `v` modulo 2^64.
pub open spec fn wrapu64(v: int) -> int {
    v % two64()
}

/// `p * q / 2^64`, rounded towards minus infinity: the high word of a
/// double-width product.
pub open spec fn mul_hi(p: int, q: int) -> int {
    (p * q) / two64()
}

/// `a / b` rounded towards zero.
pub open spec fn trunc_div(a: int, b: int) -> int {
    if a >= 0 && b > 0 {
        a / b
    } else if a < 0 && b > 0 {
        -((-a) / b)
    } else if a >= 0 && b < 0 {
        -(a / (-b))
    } else {
        (-a) / (-b)
    }
}

/// Number of binary digits of `v`: the least `n` with `v < 2^n`.
pub open spec fn bit_len(v: nat) -> nat
    decreases v,
{
    if v == 0 {
        0
    } else {
        1 + bit_len(v / 2)
    }
}

/// Number of leading bits of the 64-bit two's-complement word `v` that equal
/// its sign bit, the sign bit included. It is 64 for `0` and `-1`.
pub open spec fn lead_bits(v: int) -> int {
    if v < 0 {
        64 - bit_len((-v - 1) as nat)
    } else {
        64 - bit_len(v as nat)
    }
}

/// `v` shifted left by `shift` bits if `shift` is positive (modulo 2^64),
/// arithmetically right by `-shift` bits otherwise.
pub open spec fn shift_signed(v: int, shift: int) -> int {
    if shift > 0 {
        wrap64(v * pow2(shift as nat))
    } else {
        v / (pow2((-shift) as nat) as int)
    }
}

/// `v` shifted left by `shift` bits if `shift` is positive (modulo 2^64),
/// logically right by `-shift` bits otherwise.
pub open spec fn shift_unsigned(v: int, shift: int) -> int {
    if shift > 0 {
        wrapu64(v * pow2(shift as nat))
    } else {
        v / (pow2((-shift) as nat) as int)
    }
}

proof fn lemma_bv_word(x: i64, u: u64)
    by (bit_vector)
    ensures
        x & 0xFFFF == x % 65536,
        x & !0xFFFFi64 == x - x % 65536,
        x & !0x7FFFi64 == x - x % 32768,
        !x == -1 - x,
        x >> 0u32 == x,
        x << 0u32 == x,
        x >= 0x4000_0000_0000_0000 ==> x << 1u32 == 2 * x - 0x1_0000_0000_0000_0000,
        x < -0x4000_0000_0000_0000 ==> x << 1u32 == 2 * x + 0x1_0000_0000_0000_0000,
        -0x4000_0000_0000_0000 <= x < 0x4000_0000_0000_0000 ==> x << 1u32 == 2 * x,
        x >= 0 ==> (x as u64) == x,
        x < 0 ==> (x as u64) == x + 0x1_0000_0000_0000_0000,
        u < 0x8000_0000_0000_0000 ==> (u as i64) == u,
        u >= 0x8000_0000_0000_0000 ==> (u as i64) == u - 0x1_0000_0000_0000_0000,
        u << 0u32 == u,
        u >= 0x8000_0000_0000_0000 ==> u << 1u32 == 2 * u - 0x1_0000_0000_0000_0000,
        u < 0x8000_0000_0000_0000 ==> u << 1u32 == 2 * u,
        u >> 0u32 == u,
{
}

proof fn lemma_bv_half_i64(x: i64)
    by (bit_vector)
    ensures
        x >> 1u32 == x / 2,
{
}

proof fn lemma_bv_half_u64(u: u64)
    by (bit_vector)
    ensures
        u >> 1u32 == u / 2,
{
}

proof fn lemma_bv_shift_step(x: i64, u: u64, k: u32)
    by (bit_vector)
    requires
        k < 63,
    ensures
        x >> ((k + 1) as u32) == (x >> k) >> 1u32,
        x << ((k + 1) as u32) == (x << k) << 1u32,
        u >> ((k + 1) as u32) == (u >> k) >> 1u32,
        u << ((k + 1) as u32) == (u << k) << 1u32,
{
}

proof fn lemma_bv_hi_u128(p: u128)
    by (bit_vector)
    ensures
        p >> 64u32 == p / 0x1_0000_0000_0000_0000,
{
}

proof fn lemma_bv_hi_i128(q: i128)
    by (bit_vector)
    ensures
        q >> 64u32 == q / 0x1_0000_0000_0000_0000,
{
}

/// Adding a multiple of 2^64 does not change the wrapped value.
pub proof fn lemma_wrap64_add_multiple(v: int, n: int)
    ensures
        wrap64(v + n * two64()) == wrap64(v),
        wrapu64(v + n * two64()) == wrapu64(v),
{
    vstd::arithmetic::div_mod::lemma_mod_multiples_vanish(n, v + two63(), two64());
    vstd::arithmetic::div_mod::lemma_mod_multiples_vanish(n, v, two64());
}

/// A value already in range is its own wrapped value.
pub proof fn lemma_wrap64_id(v: int)
    ensures
        -two63() <= wrap64(v) < two63(),
        0 <= wrapu64(v) < two64(),
        -two63() <= v < two63() ==> wrap64(v) == v,
        0 <= v < two64() ==> wrapu64(v) == v,
{
}

/// Doubling commutes with wrapping.
proof fn lemma_wrap64_double(v: int)
    ensures
        wrap64(2 * wrap64(v)) == wrap64(2 * v),
        wrapu64(2 * wrapu64(v)) == wrapu64(2 * v),
{
    let q = (v + two63()) / two64();
    assert(wrap64(v) == v - q * two64());
    assert(2 * wrap64(v) == 2 * v + (-2 * q) * two64()) by (nonlinear_arith)
        requires
            wrap64(v) == v - q * two64(),
    ;
    lemma_wrap64_add_multiple(2 * v, -2 * q);
    let r = v / two64();
    assert(wrapu64(v) == v - r * two64());
    assert(2 * wrapu64(v) == 2 * v + (-2 * r) * two64()) by (nonlinear_arith)
        requires
            wrapu64(v) == v - r * two64(),
    ;
    lemma_wrap64_add_multiple(2 * v, -2 * r);
}

/// Dividing by `c` and then by `d`, rounding down each time, divides by `c * d`.
pub proof fn lemma_div_div(x: int, c: int, d: int)
    requires
        c > 0,
        d > 0,
    ensures
        (x / c) / d == x / (c * d),
{
    let q = (x / c) / d;
    let r1 = x % c;
    let r2 = (x / c) % d;
    assert(x == (q * d + r2) * c + r1 && 0 <= r1 < c && 0 <= r2 < d) by (nonlinear_arith)
        requires
            c > 0,
            d > 0,
            q == (x / c) / d,
            r1 == x % c,
            r2 == (x / c) % d,
    ;
    assert(x == q * (c * d) + (r2 * c + r1) && 0 <= r2 * c + r1 < c * d) by (nonlinear_arith)
        requires
            x == (q * d + r2) * c + r1,
            0 <= r1 < c,
            0 <= r2 < d,
    ;
    vstd::arithmetic::div_mod::lemma_fundamental_div_mod_converse(x, c * d, q, r2 * c + r1);
}

/// An arithmetic right shift is a floor division by a power of two.
pub proof fn lemma_shr_i64(x: i64, k: u32)
    requires
        k < 64,
    ensures
        x >> k == (x as int) / (pow2(k as nat) as int),
    decreases k,
{
    lemma_bv_word(x, 0);
    lemma2_to64();
    if k > 0 {
        let j = (k - 1) as u32;
        lemma_shr_i64(x, j);
        lemma_bv_shift_step(x, 0, j);
        lemma_bv_half_i64(x >> j);
        lemma_pow2_unfold(k as nat);
        lemma_pow2_pos(j as nat);
        lemma_div_div(x as int, pow2(j as nat) as int, 2);
        assert(x >> k == (x >> j) >> 1u32);
        assert(pow2(k as nat) == pow2(j as nat) * 2);
        assert(((x >> j) >> 1u32) == (x >> j) / 2);
        assert((x >> j) / 2 == ((x as int) / (pow2(j as nat) as int)) / 2);
        assert(x >> k == (x as int) / (pow2(k as nat) as int));
    } else {
        assert(x >> k == x);
        assert(pow2(0) == 1);
        assert(x >> k == (x as int) / (pow2(k as nat) as int));
    }
}

/// A left shift multiplies by a power of two, modulo 2^64.
pub proof fn lemma_shl_i64(x: i64, k: u32)
    requires
        k < 64,
    ensures
        x << k == wrap64(x * pow2(k as nat)),
    decreases k,
{
    lemma_bv_word(x, 0);
    lemma2_to64();
    lemma_wrap64_id(x as int);
    if k > 0 {
        let j = (k - 1) as u32;
        lemma_shl_i64(x, j);
        lemma_bv_shift_step(x, 0, j);
        assert(x << k == (x << j) << 1u32);
        let y: i64 = x << j;
        lemma_bv_word(y, 0);
        lemma_wrap64_id(2 * y);
        lemma_wrap64_add_multiple(2 * y, 1);
        lemma_wrap64_add_multiple(2 * y, -1);
        assert((y << 1u32) == wrap64(2 * y));
        lemma_wrap64_double(x * pow2(j as nat));
        lemma_pow2_unfold(k as nat);
        assert(2 * (x * pow2(j as nat)) == x * pow2(k as nat)) by (nonlinear_arith)
            requires
                pow2(k as nat) == 2 * pow2(j as nat),
        ;
        assert(y == wrap64(x * pow2(j as nat)));
        assert(x << k == wrap64(2 * wrap64(x * pow2(j as nat))));
        assert(x << k == wrap64(x * pow2(k as nat)));
    } else {
        assert(x << k == x);
        assert(pow2(0) == 1);
        assert(x * pow2(k as nat) == x) by (nonlinear_arith)
            requires
                pow2(k as nat) == 1,
        ;
    }
}

/// A logical right shift is a floor division by a power of two.
pub proof fn lemma_shr_u64(x: u64, k: u32)
    requires
        k < 64,
    ensures
        x >> k == (x as int) / (pow2(k as nat) as int),
    decreases k,
{
    lemma_bv_word(0, x);
    lemma2_to64();
    if k > 0 {
        let j = (k - 1) as u32;
        lemma_shr_u64(x, j);
        lemma_bv_shift_step(0, x, j);
        lemma_bv_half_u64(x >> j);
        lemma_pow2_unfold(k as nat);
        lemma_pow2_pos(j as nat);
        lemma_div_div(x as int, pow2(j as nat) as int, 2);
        assert(x >> k == (x >> j) >> 1u32);
        assert(pow2(k as nat) == pow2(j as nat) * 2);
        assert(((x >> j) >> 1u32) == (x >> j) / 2);
        assert((x >> j) / 2 == ((x as int) / (pow2(j as nat) as int)) / 2);
        assert(x >> k == (x as int) / (pow2(k as nat) as int));
    } else {
        assert(x >> k == x);
        assert(pow2(0) == 1);
        assert(x >> k == (x as int) / (pow2(k as nat) as int));
    }
}

/// A left shift multiplies by a power of two, modulo 2^64.
pub proof fn lemma_shl_u64(x: u64, k: u32)
    requires
        k < 64,
    ensures
        x << k == wrapu64(x * pow2(k as nat)),
    decreases k,
{
    lemma_bv_word(0, x);
    lemma2_to64();
    lemma_wrap64_id(x as int);
    if k > 0 {
        let j = (k - 1) as u32;
        lemma_shl_u64(x, j);
        lemma_bv_shift_step(0, x, j);
        assert(x << k == (x << j) << 1u32);
        let y: u64 = x << j;
        lemma_bv_word(0, y);
        lemma_wrap64_id(2 * y);
        lemma_wrap64_add_multiple(2 * y, -1);
        assert((y << 1u32) == wrapu64(2 * y));
        lemma_wrap64_double(x * pow2(j as nat));
        lemma_pow2_unfold(k as nat);
        assert(2 * (x * pow2(j as nat)) == x * pow2(k as nat)) by (nonlinear_arith)
            requires
                pow2(k as nat) == 2 * pow2(j as nat),
        ;
        assert(y == wrapu64(x * pow2(j as nat)));
        assert(x << k == wrapu64(2 * wrapu64(x * pow2(j as nat))));
        assert(x << k == wrapu64(x * pow2(k as nat)));
    } else {
        assert(x << k == x);
        assert(pow2(0) == 1);
        assert(x * pow2(k as nat) == x) by (nonlinear_arith)
            requires
                pow2(k as nat) == 1,
        ;
    }
}

/// `x` shifted right by `k` bits, sign-extended: `x / 2^k` rounded down.
pub fn sar(x: i64, k: u32) -> (r: i64)
    requires
        k < 64,
    ensures
        r == (x as int) / (pow2(k as nat) as int),
{
    proof {
        lemma_shr_i64(x, k);
    }
    x >> k
}

/// `x` shifted left by `k` bits: `x * 2^k` modulo 2^64.
pub fn shl(x: i64, k: u32) -> (r: i64)
    requires
        k < 64,
    ensures
        r == wrap64(x * pow2(k as nat)),
{
    proof {
        lemma_shl_i64(x, k);
    }
    x << k
}

/// `x` shifted right by `k` bits: `x / 2^k` rounded down.
pub fn shr_u(x: u64, k: u32) -> (r: u64)
    requires
        k < 64,
    ensures
        r == (x as int) / (pow2(k as nat) as int),
{
    proof {
        lemma_shr_u64(x, k);
    }
    x >> k
}

/// `x` shifted left by `k` bits: `x * 2^k` modulo 2^64.
pub fn shl_u(x: u64, k: u32) -> (r: u64)
    requires
        k < 64,
    ensures
        r == wrapu64(x * pow2(k as nat)),
{
    proof {
        lemma_shl_u64(x, k);
    }
    x << k
}

/// The bits of `x` read as an unsigned word.
pub fn to_unsigned(x: i64) -> (r: u64)
    ensures
        r == wrapu64(x as int),
        x >= 0 ==> r == x,
        x < 0 ==> r == x + two64(),
{
    proof {
        lemma_bv_word(x, 0);
    }
    #[verifier::truncate]
    (x as u64)
}

/// The bits of `u` read as a two's-complement word.
pub fn to_signed(u: u64) -> (r: i64)
    ensures
        r == wrap64(u as int),
        u < two63() ==> r == u,
        u >= two63() ==> r == u - two64(),
{
    proof {
        lemma_bv_word(0, u);
    }
    #[verifier::truncate]
    (u as i64)
}

/// Shift left by `shift` bits if it is positive, arithmetically right by
/// `-shift` bits otherwise.
pub fn shift_left_signed(x: i64, shift: i32) -> (r: i64)
    requires
        -64 < shift < 64,
    ensures
        r == shift_signed(x as int, shift as int),
{
    if shift > 0 {
        shl(x, shift as u32)
    } else {
        sar(x, (-shift) as u32)
    }
}

/// Shift left by `shift` bits if it is positive, logically right by `-shift`
/// bits otherwise.
pub fn shift_left_unsigned(x: u64, shift: i32) -> (r: u64)
    requires
        -64 < shift < 64,
    ensures
        r == shift_unsigned(x as int, shift as int),
{
    if shift > 0 {
        shl_u(x, shift as u32)
    } else {
        shr_u(x, (-shift) as u32)
    }
}

/// High 64 bits of the 128-bit product of two unsigned words.
pub fn multu64hi(x: u64, y: u64) -> (r: u64)
    ensures
        r == mul_hi(x as int, y as int),
{
    proof {
        assert(0 <= x * y <= 0xFFFF_FFFF_FFFF_FFFF * 0xFFFF_FFFF_FFFF_FFFF) by (nonlinear_arith)
            requires
                0 <= x <= 0xFFFF_FFFF_FFFF_FFFF,
                0 <= y <= 0xFFFF_FFFF_FFFF_FFFF,
        ;
    }
    let p: u128 = (x as u128) * (y as u128);
    proof {
        lemma_bv_hi_u128(p);
    }
    let h: u128 = p >> 64u32;
    h as u64
}

/// High 64 bits of the 128-bit product of two signed words.
pub fn mults64hi(x: i64, y: i64) -> (r: i64)
    ensures
        r == mul_hi(x as int, y as int),
{
    proof {
        assert(-0x8000_0000_0000_0000 * 0x8000_0000_0000_0000 <= x * y
            <= 0x8000_0000_0000_0000 * 0x8000_0000_0000_0000) by (nonlinear_arith)
            requires
                -0x8000_0000_0000_0000 <= x < 0x8000_0000_0000_0000,
                -0x8000_0000_0000_0000 <= y < 0x8000_0000_0000_0000,
        ;
    }
    let p: i128 = (x as i128) * (y as i128);
    proof {
        lemma_bv_hi_i128(p);
    }
    let h: i128 = p >> 64u32;
    h as i64
}

/// The low 64 bits of a 128-bit word.
proof fn lemma_bv_low_u128(p: u128)
    by (bit_vector)
    ensures
        (p as u64) == p % 0x1_0000_0000_0000_0000,
{
}

/// The quotient of `x * 2^64` by `y`, rounded towards zero, reduced to its
/// low 64 bits.
pub fn divs64hi(x: i64, y: i64) -> (r: i64)
    requires
        y != 0,
    ensures
        r == wrap64(trunc_div(x * two64(), y as int)),
{
    let xa: i128 = x as i128;
    let ya: i128 = y as i128;
    let xm: u128 = (if xa < 0 { -xa } else { xa }) as u128;
    let ym: u128 = (if ya < 0 { -ya } else { ya }) as u128;
    let n: u128 = xm * 0x1_0000_0000_0000_0000u128;
    let q: u128 = n / ym;
    proof {
        lemma_bv_low_u128(q);
    }
    let low: u64 = #[verifier::truncate] (q as u64);
    let negative: bool = (x < 0) != (y < 0);
    let bits: u64 = if negative { 0u64.wrapping_sub(low) } else { low };
    proof {
        let k = (q as int) / two64();
        assert(q == k * two64() + low) by {
            vstd::arithmetic::div_mod::lemma_fundamental_div_mod(q as int, two64());
        }
        let t = trunc_div(x * two64(), y as int);
        if negative {
            assert(t == -(q as int));
            lemma_wrap64_add_multiple(-(low as int), -k);
            assert(-(low as int) + (-k) * two64() == -(q as int)) by (nonlinear_arith)
                requires
                    q == k * two64() + low,
            ;
            lemma_wrap64_add_multiple(-(low as int), 1);
        } else {
            assert(t == q as int);
            lemma_wrap64_add_multiple(low as int, k);
        }
        lemma_wrap64_add_multiple(bits as int, -1);
    }
    to_signed(bits)
}

/// The binary digits of a positive number bracket it between two powers of two.
pub proof fn lemma_bit_len_bounds(v: nat)
    ensures
        v < pow2(bit_len(v)),
        v > 0 ==> bit_len(v) >= 1 && pow2((bit_len(v) - 1) as nat) <= v,
    decreases v,
{
    lemma2_to64();
    if v > 0 {
        lemma_bit_len_bounds(v / 2);
        lemma_pow2_unfold(bit_len(v));
        if v / 2 > 0 {
            lemma_pow2_unfold((bit_len(v) - 1) as nat);
        }
    }
}

/// A number below `2^n` has at most `n` binary digits.
pub proof fn lemma_bit_len_upper(v: nat, n: nat)
    requires
        v < pow2(n),
    ensures
        bit_len(v) <= n,
    decreases n,
{
    lemma2_to64();
    if v > 0 {
        if n == 0 {
        } else {
            lemma_pow2_unfold(n);
            lemma_bit_len_upper(v / 2, (n - 1) as nat);
        }
    }
}

/// The standard count of leading zeros of a word is 64 minus its number of
/// binary digits.
proof fn lemma_leading_zeros_is_bit_len(i: u64)
    ensures
        u64_leading_zeros(i) == 64 - bit_len(i as nat),
    decreases i,
{
    reveal(u64_leading_zeros);
    if i != 0 {
        lemma_leading_zeros_is_bit_len(i / 2);
    }
}

/// What the count of leading bits says of a nonzero 64-bit word: shifted left
/// by one less than that count, it fills the word exactly, with its two top
/// bits different.
pub proof fn lemma_lead_bits(v: int)
    requires
        -two63() <= v < two63(),
    ensures
        1 <= lead_bits(v) <= 64,
        v > 0 ==> two62() <= v * pow2((lead_bits(v) - 1) as nat) < two63(),
        v < 0 ==> -two63() <= v * pow2((lead_bits(v) - 1) as nat) < -two62(),
        v == 0 ==> lead_bits(v) == 64,
{
    lemma2_to64();
    lemma2_to64_rest();
    let w: nat = if v < 0 { (-v - 1) as nat } else { v as nat };
    let n = bit_len(w);
    lemma_bit_len_bounds(w);
    lemma_bit_len_upper(w, 63);
    let lb = (63 - n) as nat;
    lemma_pow2_adds(n, lb);
    lemma_pow2_pos(lb);
    let p = pow2(lb) as int;
    let pn = pow2(n) as int;
    if v > 0 {
        lemma_pow2_adds((n - 1) as nat, lb);
        let ph = pow2((n - 1) as nat) as int;
        assert(two62() <= v * p < two63()) by (nonlinear_arith)
            requires
                ph <= v < pn,
                ph * p == two62(),
                pn * p == two63(),
                p > 0,
        ;
    } else if v < 0 {
        if n > 0 {
            lemma_pow2_adds((n - 1) as nat, lb);
            let ph = pow2((n - 1) as nat) as int;
            assert(-two63() <= v * p < -two62()) by (nonlinear_arith)
                requires
                    -pn <= v <= -ph - 1,
                    ph * p == two62(),
                    pn * p == two63(),
                    p > 0,
            ;
        } else {
            assert(v == -1);
            assert(p == two63());
            assert(v * p == -two63());
        }
    }
}

/// The count of leading bits of `x` that equal its sign bit.
pub fn leading_bits(x: i64) -> (r: u32)
    ensures
        r == lead_bits(x as int),
        1 <= r <= 64,
{
    proof {
        lemma_bv_word(x, 0);
        lemma_lead_bits(x as int);
    }
    let y: i64 = if x < 0 { !x } else { x };
    proof {
        lemma_leading_zeros_is_bit_len(y as u64);
    }
    (y as u64).leading_zeros()
}

/// The low 16 bits of `x`.
pub fn low_bits16(x: i64) -> (r: i64)
    ensures
        r == x % 65536,
        0 <= r < 65536,
{
    proof {
        lemma_bv_word(x, 0);
    }
    x & 0xFFFF
}

/// `x` with its low 16 bits cleared.
pub fn clear_bits16(x: i64) -> (r: i64)
    ensures
        r == x - x % 65536,
{
    proof {
        lemma_bv_word(x, 0);
    }
    x & !0xFFFFi64
}

/// `x` with its low 15 bits cleared.
pub fn clear_bits15(x: i64) -> (r: i64)
    ensures
        r == x - x % 32768,
{
    proof {
        lemma_bv_word(x, 0);
    }
    x & !0x7FFFi64
}

/// `x` with its low `k` bits cleared: the largest multiple of `2^k` that is
/// not above `x`.
pub fn clear_low_bits(x: i64, k: u32) -> (r: i64)
    requires
        k < 64,
    ensures
        r == (x as int) / (pow2(k as nat) as int) * pow2(k as nat),
        r <= x < r + pow2(k as nat),
{
    let q: i64 = sar(x, k);
    proof {
        lemma_pow2_pos(k as nat);
        let p = pow2(k as nat) as int;
        vstd::arithmetic::div_mod::lemma_fundamental_div_mod(x as int, p);
        vstd::arithmetic::div_mod::lemma_mod_bound(x as int, p);
        lemma2_to64();
        lemma2_to64_rest();
        let h = pow2((63 - k) as nat) as int;
        lemma_pow2_adds(k as nat, (63 - k) as nat);
        let r = (x as int) % p;
        assert(q >= -h) by (nonlinear_arith)
            requires
                p * q > -(p * h) - p,
                p > 0,
        ;
        assert(p * q >= -(p * h)) by (nonlinear_arith)
            requires
                q >= -h,
                p > 0,
        ;
        assert(q * p == p * q) by (nonlinear_arith);
        lemma_wrap64_id(q * p);
    }
    shl(q, k)
}

/// A nonzero word shifted left by no more than its redundant leading bits
/// still fits in 64 bits.
pub proof fn lemma_shift_within(v: int, k: nat)
    requires
        -two63() <= v < two63(),
        v != 0,
        k <= lead_bits(v) - 1,
    ensures
        -two63() <= v * pow2(k) < two63(),
        v * pow2(k) != 0,
{
    lemma_lead_bits(v);
    let top = (lead_bits(v) - 1) as nat;
    lemma_pow2_pos(k);
    lemma_pow2_pos((top - k) as nat);
    lemma_pow2_adds(k, (top - k) as nat);
    let p = pow2(k) as int;
    let q = pow2((top - k) as nat) as int;
    let t = pow2(top) as int;
    if v > 0 {
        assert(0 < v * p <= v * t) by (nonlinear_arith)
            requires
                v > 0,
                p > 0,
                q >= 1,
                t == p * q,
        ;
    } else {
        assert(v * t <= v * p < 0) by (nonlinear_arith)
            requires
                v < 0,
                p > 0,
                q >= 1,
                t == p * q,
        ;
    }
}

/// Powers of two grow with the exponent.
pub proof fn lemma_pow2_monotonic(a: nat, b: nat)
    requires
        a <= b,
    ensures
        pow2(a) <= pow2(b),
        pow2(a) >= 1,
{
    lemma_pow2_pos(a);
    if a < b {
        lemma_pow2_strictly_increases(a, b);
    }
}

/// The word `2^k`.
pub fn pow2_word(k: u32) -> (r: i64)
    requires
        k <= 62,
    ensures
        r == pow2(k as nat),
        1 <= r <= two62(),
{
    proof {
        lemma2_to64();
        lemma2_to64_rest();
        lemma_pow2_monotonic(k as nat, 62);
        lemma_wrap64_id(1 * (pow2(k as nat) as int));
    }
    shl(1, k)
}

/// Wrapping to signed and to unsigned words agree modulo 2^64.
pub proof fn lemma_wrap_mix(v: int)
    ensures
        wrapu64(wrap64(v)) == wrapu64(v),
        wrap64(wrapu64(v)) == wrap64(v),
        wrap64(wrap64(v)) == wrap64(v),
        wrapu64(wrapu64(v)) == wrapu64(v),
{
    let q = (v + two63()) / two64();
    assert(wrap64(v) == v - q * two64());
    assert(v - q * two64() == v + (-q) * two64()) by (nonlinear_arith);
    lemma_wrap64_add_multiple(v, -q);
    let r = v / two64();
    assert(wrapu64(v) == v - r * two64());
    assert(v - r * two64() == v + (-r) * two64()) by (nonlinear_arith);
    lemma_wrap64_add_multiple(v, -r);
}

/// Dividing a 64-bit word by `2^k` for `k` of 63 or more leaves only its sign.
pub proof fn lemma_div_pow2_large(x: int, k: nat)
    requires
        -two63() <= x < two63(),
        k >= 63,
    ensures
        x / (pow2(k) as int) == (if x < 0 { -1int } else { 0int }),
{
    lemma2_to64();
    lemma2_to64_rest();
    lemma_pow2_monotonic(63, k);
    let p = pow2(k) as int;
    if x >= 0 {
        vstd::arithmetic::div_mod::lemma_small_div_converse(x, p);
        assert(x / p == 0) by (nonlinear_arith)
            requires
                0 <= x < p,
        ;
    } else {
        assert(x / p == -1) by (nonlinear_arith)
            requires
                -p <= x < 0,
        ;
    }
}

/// `x / 2^k` rounded down, for any `k` that is not negative.
pub fn sar_wide(x: i64, k: i64) -> (r: i64)
    requires
        k >= 0,
    ensures
        r == (x as int) / (pow2(k as nat) as int),
{
    if k >= 63 {
        proof {
            lemma_div_pow2_large(x as int, k as nat);
            lemma_div_pow2_large(x as int, 63);
        }
        sar(x, 63)
    } else {
        sar(x, k as u32)
    }
}

} // verus!
