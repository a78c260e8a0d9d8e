//! Fixed-point kernels on raw 64-bit words: the reciprocal square root by
//! Newton's iteration, and minimax polynomials for the base-2 exponential and
//! logarithm, the sine and the arctangent. The coefficients are tuned
//! constants; every product keeps the high word only, so each kernel is an
//! exact function of its argument.

use vstd::prelude::*;
use vstd::arithmetic::power2::lemma2_to64;
use crate::bits::{two64, wrapu64, mul_hi, multu64hi, mults64hi, shr_u, shl_u};

verus! {

/// The high word of the product `u * x`, for `u` in `lo..=hi` and `x` in
/// `0..=xmax`, lies between the high words of the extreme products.
pub proof fn lemma_mul_hi_bounds(u: int, x: int, lo: int, hi: int, xmax: int)
    requires
        lo <= u <= hi,
        0 <= x <= xmax,
    ensures
        ((if lo < 0 { lo } else { 0 }) * xmax) / two64() <= mul_hi(u, x),
        mul_hi(u, x) <= ((if hi > 0 { hi } else { 0 }) * xmax) / two64(),
{
    let l = if lo < 0 { lo } else { 0 };
    let h = if hi > 0 { hi } else { 0 };
    assert(l * xmax <= u * x <= h * xmax) by (nonlinear_arith)
        requires
            l <= u <= h,
            l <= 0 <= h,
            0 <= x <= xmax,
    ;
    vstd::arithmetic::div_mod::lemma_div_is_ordered(l * xmax, u * x, two64());
    vstd::arithmetic::div_mod::lemma_div_is_ordered(u * x, h * xmax, two64());
}

/// The high word of the product of a positive `u` and a 64-bit `x` is below `u`.
pub proof fn lemma_mul_hi_decreases(u: int, x: int)
    requires
        0 < u,
        0 <= x < two64(),
    ensures
        0 <= mul_hi(u, x) < u,
{
    assert(0 <= u * x < u * two64()) by (nonlinear_arith)
        requires
            0 < u,
            0 <= x < two64(),
    ;
    vstd::arithmetic::div_mod::lemma_div_is_ordered(0, u * x, two64());
    assert((u * x) / two64() < u) by (nonlinear_arith)
        requires
            0 <= u * x < u * two64(),
    ;
}

/// One step of Newton's iteration for the reciprocal square root,
/// `y * (3 - x * y^2) / 2`, on 64-bit words modulo `2^64`; the last step
/// leaves out the final doubling.
pub open spec fn inv_sqrt_step(y: int, x: int, double: bool) -> int {
    let t = mul_hi(y, wrapu64(0xC000_0000_0000_0000 - mul_hi(mul_hi(y, y), x)));
    if double {
        wrapu64(2 * t)
    } else {
        t
    }
}

/// The linear first guess `7/6 - x/6`, then five steps of Newton's iteration.
pub open spec fn inv_sqrt64_fixed_spec(x: int) -> int {
    let y = wrapu64(3074457345618258602 - mul_hi(x, 12297829382473034410));
    let y = inv_sqrt_step(y, x, true);
    let y = inv_sqrt_step(y, x, true);
    let y = inv_sqrt_step(y, x, true);
    let y = inv_sqrt_step(y, x, true);
    inv_sqrt_step(y, x, false)
}

/// One step of the iteration of `inv_sqrt64_fixed`.
fn inv_sqrt_refine(y: u64, x: u64, double: bool) -> (r: u64)
    ensures
        r == inv_sqrt_step(y as int, x as int, double),
{
    let s: u64 = 0xC000_0000_0000_0000u64.wrapping_sub(multu64hi(multu64hi(y, y), x));
    let t: u64 = multu64hi(y, s);
    proof {
        lemma2_to64();
    }
    if double {
        shl_u(t, 1)
    } else {
        t
    }
}

/// The reciprocal of the square root of `x`, for `x` in `(1, 4)` as a
/// fixed-point fraction of `2^62`; the result, in `(1/2, 1)`, is a fraction
/// of `2^63`.
pub fn inv_sqrt64_fixed(x: u64) -> (r: u64)
    ensures
        r == inv_sqrt64_fixed_spec(x as int),
{
    let mut y: u64 = 3074457345618258602u64.wrapping_sub(multu64hi(x, 12297829382473034410u64));
    y = inv_sqrt_refine(y, x, true);
    y = inv_sqrt_refine(y, x, true);
    y = inv_sqrt_refine(y, x, true);
    y = inv_sqrt_refine(y, x, true);
    inv_sqrt_refine(y, x, false)
}

/// A polynomial in `x / 2^64`, evaluated by Horner's rule with
/// every product rounded down: `2^(x / 2^64)` in units of `2^-62`.
pub open spec fn exp2_64_fixed_spec(x: int) -> int {
    let u = 184590982593int;
    let u = mul_hi(u, x) + 1740251145362;
    let u = mul_hi(u, x) + 24568133950921;
    let u = mul_hi(u, x) + 281202104385660;
    let u = mul_hi(u, x) + 2841537213775953;
    let u = mul_hi(u, x) + 24596043144794548;
    let u = mul_hi(u, x) + 177423172664869807;
    let u = mul_hi(u, x) + 1023870086755462747;
    let u = mul_hi(u, x) + 4431396893648852228;
    let u = mul_hi(u, x) + 12786308645201331805;
    mul_hi(u, x) / 4 + 0x4000_0000_0000_0000
}

/// The exponential kernel stays within `[1, 2)`: its value is at least
/// `2^62` and below `2^63`.
pub proof fn lemma_exp2_range(x: int)
    requires
        0 <= x < two64(),
    ensures
        0x4000_0000_0000_0000 <= exp2_64_fixed_spec(x) < 0x8000_0000_0000_0000,
        exp2_64_fixed_spec(x) % 65536 >= 0,
{
    let u0 = 184590982593int;
    lemma_mul_hi_decreases(u0, x);
    let u1 = mul_hi(u0, x) + 1740251145362;
    lemma_mul_hi_decreases(u1, x);
    let u2 = mul_hi(u1, x) + 24568133950921;
    lemma_mul_hi_decreases(u2, x);
    let u3 = mul_hi(u2, x) + 281202104385660;
    lemma_mul_hi_decreases(u3, x);
    let u4 = mul_hi(u3, x) + 2841537213775953;
    lemma_mul_hi_decreases(u4, x);
    let u5 = mul_hi(u4, x) + 24596043144794548;
    lemma_mul_hi_decreases(u5, x);
    let u6 = mul_hi(u5, x) + 177423172664869807;
    lemma_mul_hi_decreases(u6, x);
    let u7 = mul_hi(u6, x) + 1023870086755462747;
    lemma_mul_hi_decreases(u7, x);
    let u8 = mul_hi(u7, x) + 4431396893648852228;
    lemma_mul_hi_decreases(u8, x);
    let u9 = mul_hi(u8, x) + 12786308645201331805;
    lemma_mul_hi_decreases(u9, x);
}

/// Two to the power `x`, for `x` in `[0, 1)` as a fixed-point fraction of
/// `2^64`; the result, in `[1, 2)`, is a fraction of `2^62`.
pub fn exp2_64_fixed(x: u64) -> (r: u64)
    ensures
        r == exp2_64_fixed_spec(x as int),
        0x4000_0000_0000_0000 <= r < 0x8000_0000_0000_0000,
{
    let mut u: u64 = 184590982593;
    proof {
        lemma_mul_hi_decreases(u as int, x as int);
    }
    u = multu64hi(u, x) + 1740251145362;
    assert(1740251145362 <= u <= 1924842127954);
    proof {
        lemma_mul_hi_decreases(u as int, x as int);
    }
    u = multu64hi(u, x) + 24568133950921;
    assert(24568133950921 <= u <= 26492976078874);
    proof {
        lemma_mul_hi_decreases(u as int, x as int);
    }
    u = multu64hi(u, x) + 281202104385660;
    assert(281202104385660 <= u <= 307695080464533);
    proof {
        lemma_mul_hi_decreases(u as int, x as int);
    }
    u = multu64hi(u, x) + 2841537213775953;
    assert(2841537213775953 <= u <= 3149232294240485);
    proof {
        lemma_mul_hi_decreases(u as int, x as int);
    }
    u = multu64hi(u, x) + 24596043144794548;
    assert(24596043144794548 <= u <= 27745275439035032);
    proof {
        lemma_mul_hi_decreases(u as int, x as int);
    }
    u = multu64hi(u, x) + 177423172664869807;
    assert(177423172664869807 <= u <= 205168448103904838);
    proof {
        lemma_mul_hi_decreases(u as int, x as int);
    }
    u = multu64hi(u, x) + 1023870086755462747;
    assert(1023870086755462747 <= u <= 1229038534859367584);
    proof {
        lemma_mul_hi_decreases(u as int, x as int);
    }
    u = multu64hi(u, x) + 4431396893648852228;
    assert(4431396893648852228 <= u <= 5660435428508219811);
    proof {
        lemma_mul_hi_decreases(u as int, x as int);
    }
    u = multu64hi(u, x) + 12786308645201331805;
    assert(12786308645201331805 <= u <= 18446744073709551615);
    proof {
        lemma_mul_hi_decreases(u as int, x as int);
        lemma2_to64();
    }
    shr_u(multu64hi(u, x), 2) + 0x4000_0000_0000_0000
}

/// The first run of Horner steps of `log2_64_fixed_spec`, from the running value
/// `u` with the argument `x`.
pub open spec fn log2_64_fixed_part1_spec(u: int, x: int) -> int {
    let u = mul_hi(u, x) + 1164367367561448832;
    let u = mul_hi(u, x) - 2894678205828037632;
    let u = mul_hi(u, x) + 4564758462798793728;
    let u = mul_hi(u, x) - 5181912651403289504;
    let u = mul_hi(u, x) + 4582002266251388328;
    let u = mul_hi(u, x) - 3357979023089345596;
    u
}

/// The first run of Horner steps of `log2_64_fixed`.
fn log2_64_fixed_part1(u0: i64, x: i64) -> (r: i64)
    requires
        (-221743325813366016) <= u0 <= (-221743325813366016),
        0 <= x <= 9223372036854775807,
    ensures
        r == log2_64_fixed_part1_spec(u0 as int, x as int),
        (-3357979023089345596) <= r <= (-1066977889963651433),
{
    let mut u: i64 = u0;
    proof {
        lemma_mul_hi_bounds((u) as int, x as int, (-221743325813366016), (-221743325813366016), 9223372036854775807);
    }
    u = mults64hi(u, x) + 1164367367561448832;
    proof {
        lemma_mul_hi_bounds((u) as int, x as int, 1053495704654765824, 1164367367561448832, 9223372036854775807);
    }
    u = mults64hi(u, x) - 2894678205828037632;
    proof {
        lemma_mul_hi_bounds((u) as int, x as int, (-2894678205828037632), (-2312494522047313217), 9223372036854775807);
    }
    u = mults64hi(u, x) + 4564758462798793728;
    proof {
        lemma_mul_hi_bounds((u) as int, x as int, 3117419359884774912, 4564758462798793728, 9223372036854775807);
    }
    u = mults64hi(u, x) - 5181912651403289504;
    proof {
        lemma_mul_hi_bounds((u) as int, x as int, (-5181912651403289504), (-2899533420003892641), 9223372036854775807);
    }
    u = mults64hi(u, x) + 4582002266251388328;
    proof {
        lemma_mul_hi_bounds((u) as int, x as int, 1991045940549743576, 4582002266251388328, 9223372036854775807);
    }
    u = mults64hi(u, x) - 3357979023089345596;
    u
}

/// The second run of Horner steps of `log2_64_fixed_spec`, from the running value
/// `u` with the argument `x`.
pub open spec fn log2_64_fixed_part2_spec(u: int, x: int) -> int {
    let u = mul_hi(u, x) + 2157517570323632820;
    let u = mul_hi(u, x) - 1279749673020511097;
    let u = mul_hi(u * 4, x) + 2925840053499248426;
    let u = mul_hi(u, x) - 1659624849656686669;
    let u = mul_hi(u * 4, x) + 3800538901941022104;
    let u = mul_hi(u, x) - 2217665122870979542;
    u
}

/// The second run of Horner steps of `log2_64_fixed`.
fn log2_64_fixed_part2(u0: i64, x: i64) -> (r: i64)
    requires
        (-3357979023089345596) <= u0 <= (-1066977889963651433),
        0 <= x <= 9223372036854775807,
    ensures
        r == log2_64_fixed_part2_spec(u0 as int, x as int),
        (-2217665122870979542) <= r <= (-317395671900468491),
{
    let mut u: i64 = u0;
    proof {
        lemma_mul_hi_bounds((u) as int, x as int, (-3357979023089345596), (-1066977889963651433), 9223372036854775807);
    }
    u = mults64hi(u, x) + 2157517570323632820;
    proof {
        lemma_mul_hi_bounds((u) as int, x as int, 478528058778960022, 2157517570323632820, 9223372036854775807);
    }
    u = mults64hi(u, x) - 1279749673020511097;
    proof {
        lemma_mul_hi_bounds((u * 4) as int, x as int, (-5118998692082044388), (-803963551434778752), 9223372036854775807);
    }
    u = mults64hi(u * 4, x) + 2925840053499248426;
    proof {
        lemma_mul_hi_bounds((u) as int, x as int, 366340707458226232, 2925840053499248426, 9223372036854775807);
    }
    u = mults64hi(u, x) - 1659624849656686669;
    proof {
        lemma_mul_hi_bounds((u * 4) as int, x as int, (-6638499398626746676), (-786819291628249828), 9223372036854775807);
    }
    u = mults64hi(u * 4, x) + 3800538901941022104;
    proof {
        lemma_mul_hi_bounds((u) as int, x as int, 481289202627648766, 3800538901941022104, 9223372036854775807);
    }
    u = mults64hi(u, x) - 2217665122870979542;
    u
}

/// The third run of Horner steps of `log2_64_fixed_spec`, from the running value
/// `u` with the argument `x`.
pub open spec fn log2_64_fixed_part3_spec(u: int, x: int) -> int {
    let u = mul_hi(u * 2, x) + 2661294517602797903;
    let u = mul_hi(u * 2, x) - 3326627771183711640;
    let u = mul_hi(u * 2, x) + 4435504346812152696;
    let u = mul_hi(u * 2, x) - 6653256548536882955;
    let u = mul_hi(u, x) + 6653256548920624661;
    u
}

/// The third run of Horner steps of `log2_64_fixed`.
fn log2_64_fixed_part3(u0: i64, x: i64) -> (r: i64)
    requires
        (-2217665122870979542) <= u0 <= (-317395671900468491),
        0 <= x <= 9223372036854775807,
    ensures
        r == log2_64_fixed_part3_spec(u0 as int, x as int),
        3326628274652183183 <= r <= 6653256548920624661,
{
    let mut u: i64 = u0;
    proof {
        lemma_mul_hi_bounds((u * 2) as int, x as int, (-4435330245741959084), (-634791343800936982), 9223372036854775807);
    }
    u = mults64hi(u * 2, x) + 2661294517602797903;
    proof {
        lemma_mul_hi_bounds((u * 2) as int, x as int, 887258789463636722, 5322589035205595806, 9223372036854775807);
    }
    u = mults64hi(u * 2, x) - 3326627771183711640;
    proof {
        lemma_mul_hi_bounds((u * 2) as int, x as int, (-6653255542367423280), (-1330666507161827476), 9223372036854775807);
    }
    u = mults64hi(u * 2, x) + 4435504346812152696;
    proof {
        lemma_mul_hi_bounds((u * 2) as int, x as int, 2217753151256882112, 8871008693624305392, 9223372036854775807);
    }
    u = mults64hi(u * 2, x) - 6653256548536882955;
    proof {
        lemma_mul_hi_bounds((u) as int, x as int, (-6653256548536882955), (-2217752201724730260), 9223372036854775807);
    }
    u = mults64hi(u, x) + 6653256548920624661;
    u
}

/// A polynomial in `x / 2^64`, evaluated by Horner's rule with
/// every product rounded down: `log2(1 + x / 2^63)` in units of `2^-63`.
pub open spec fn log2_64_fixed_spec(x: int) -> int {
    let u = -221743325813366016int;
    let u = log2_64_fixed_part1_spec(u, x);
    let u = log2_64_fixed_part2_spec(u, x);
    let u = log2_64_fixed_part3_spec(u, x);
    mul_hi(u, x) * 4
}

/// The base-2 logarithm of `1 + x`, for `x` in `[0, 1)` as a fixed-point
/// fraction of `2^63`; the result is a fraction of `2^63` as well.
pub fn log2_64_fixed(xu: u64) -> (r: u64)
    requires
        xu <= 9223372036854775807,
    ensures
        r == log2_64_fixed_spec(xu as int),
        r <= 13306513097841249320,
{
    let x: i64 = xu as i64;
    let mut u: i64 = -221743325813366016;
    u = log2_64_fixed_part1(u, x);
    u = log2_64_fixed_part2(u, x);
    u = log2_64_fixed_part3(u, x);
    proof {
        lemma_mul_hi_bounds(u as int, x as int, 3326628274652183183, 6653256548920624661, 9223372036854775807);
    }
    let v: u64 = mults64hi(u, x) as u64;
    v * 4
}

/// The first run of Horner steps of `sin_rev_64_fixed_spec`, from the running value
/// `u` with the argument `x2`.
pub open spec fn sin_rev_64_fixed_part1_spec(u: int, x2: int) -> int {
    let u = mul_hi(u * 4, x2) + 262302065977;
    let u = mul_hi(u * 4, x2) - 16596547057622;
    let u = mul_hi(u * 4, x2) + 739904269452523;
    let u = mul_hi(u * 4, x2) - 21590780057842334;
    let u = mul_hi(u * 4, x2) + 367517370226484839;
    let u = mul_hi(u * 4, x2) - 2978983596875284700;
    let u = mul_hi(u, x2) * 4 + 7244019458077116241;
    u
}

/// The first run of Horner steps of `sin_rev_64_fixed`.
fn sin_rev_64_fixed_part1(u0: i64, x2: i64) -> (r: i64)
    requires
        (-2967547018) <= u0 <= (-2967547018),
        0 <= x2 <= 4611686018427387904,
    ensures
        r == sin_rev_64_fixed_part1_spec(u0 as int, x2 as int),
        4265035861201831541 <= r <= 7244019458077116241,
{
    let mut u: i64 = u0;
    proof {
        lemma_mul_hi_bounds((u * 4) as int, x2 as int, (-11870188072), (-11870188072), 4611686018427387904);
    }
    u = mults64hi(u * 4, x2) + 262302065977;
    proof {
        lemma_mul_hi_bounds((u * 4) as int, x2 as int, 1037338075836, 1049208263908, 4611686018427387904);
    }
    u = mults64hi(u * 4, x2) - 16596547057622;
    proof {
        lemma_mul_hi_bounds((u * 4) as int, x2 as int, (-66386188230488), (-65336979966580), 4611686018427387904);
    }
    u = mults64hi(u * 4, x2) + 739904269452523;
    proof {
        lemma_mul_hi_bounds((u * 4) as int, x2 as int, 2893230889579604, 2959617077810092, 4611686018427387904);
    }
    u = mults64hi(u * 4, x2) - 21590780057842334;
    proof {
        lemma_mul_hi_bounds((u * 4) as int, x2 as int, (-86363120231369336), (-83403503153559244), 4611686018427387904);
    }
    u = mults64hi(u * 4, x2) + 367517370226484839;
    proof {
        lemma_mul_hi_bounds((u * 4) as int, x2 as int, 1383706360674570020, 1470069480905939356, 4611686018427387904);
    }
    u = mults64hi(u * 4, x2) - 2978983596875284700;
    proof {
        lemma_mul_hi_bounds((u) as int, x2 as int, (-2978983596875284700), (-2611466226648799861), 4611686018427387904);
    }
    u = mults64hi(u, x2) * 4 + 7244019458077116241;
    u
}

/// An odd polynomial in `x / 2^62`, evaluated by Horner's rule in
/// the square of `x` with every product rounded down: the sine of
/// `x / 2^62` quarter turns in units of `2^-62`.
pub open spec fn sin_rev_64_fixed_spec(x: int) -> int {
    let x2 = mul_hi(x, x) * 4;
    let u = -2967547018int;
    let u = sin_rev_64_fixed_part1_spec(u, x2);
    mul_hi(u, x) * 4
}

/// The sine of `x` quarter turns, for `x` in `[0, 1]` as a fixed-point
/// fraction of `2^62`; the result is a fraction of `2^62` as well.
pub fn sin_rev_64_fixed(xu: u64) -> (r: u64)
    requires
        xu <= 4611686018427387904,
    ensures
        r == sin_rev_64_fixed_spec(xu as int),
        r <= 7244019458077116240,
{
    let x: i64 = xu as i64;
    proof {
        lemma_mul_hi_bounds(x as int, x as int, 0, 4611686018427387904, 4611686018427387904);
    }
    let x2: i64 = mults64hi(x, x) * 4;
    let mut u: i64 = -2967547018;
    u = sin_rev_64_fixed_part1(u, x2);
    proof {
        lemma_mul_hi_bounds(u as int, x as int, 4265035861201831541, 7244019458077116241, 4611686018427387904);
    }
    let v: u64 = mults64hi(u, x) as u64;
    v * 4
}

/// The first run of Horner steps of `atan_rev_64_fixed_spec`, from the running value
/// `u` with the argument `x2`.
pub open spec fn atan_rev_64_fixed_part1_spec(u: int, x2: int) -> int {
    let u = mul_hi(u * 4, x2) + 2433048613302551;
    let u = mul_hi(u * 4, x2) - 11803099298741644;
    let u = mul_hi(u * 4, x2) + 36309893897766633;
    let u = mul_hi(u * 4, x2) - 80458355317258810;
    let u = mul_hi(u * 4, x2) + 139148599586868171;
    let u = mul_hi(u * 4, x2) - 200228105177389631;
    u
}

/// The first run of Horner steps of `atan_rev_64_fixed`.
fn atan_rev_64_fixed_part1(u0: i64, x2: i64) -> (r: i64)
    requires
        (-237264505088513) <= u0 <= (-237264505088513),
        0 <= x2 <= 4611686018427387904,
    ensures
        r == atan_rev_64_fixed_part1_spec(u0 as int, x2 as int),
        (-200228105177389631) <= r <= (-61079505590521460),
{
    let mut u: i64 = u0;
    proof {
        lemma_mul_hi_bounds((u * 4) as int, x2 as int, (-949058020354052), (-949058020354052), 4611686018427387904);
    }
    u = mults64hi(u * 4, x2) + 2433048613302551;
    proof {
        lemma_mul_hi_bounds((u * 4) as int, x2 as int, 8783136432856152, 9732194453210204, 4611686018427387904);
    }
    u = mults64hi(u * 4, x2) - 11803099298741644;
    proof {
        lemma_mul_hi_bounds((u * 4) as int, x2 as int, (-47212397194966576), (-37480202741756372), 4611686018427387904);
    }
    u = mults64hi(u * 4, x2) + 36309893897766633;
    proof {
        lemma_mul_hi_bounds((u * 4) as int, x2 as int, 98027178396099956, 145239575591066532, 4611686018427387904);
    }
    u = mults64hi(u * 4, x2) - 80458355317258810;
    proof {
        lemma_mul_hi_bounds((u * 4) as int, x2 as int, (-321833421269035240), (-176593845677968708), 4611686018427387904);
    }
    u = mults64hi(u * 4, x2) + 139148599586868171;
    proof {
        lemma_mul_hi_bounds((u * 4) as int, x2 as int, 234760977078437444, 556594398347472684, 4611686018427387904);
    }
    u = mults64hi(u * 4, x2) - 200228105177389631;
    u
}

/// The second run of Horner steps of `atan_rev_64_fixed_spec`, from the running value
/// `u` with the argument `x2`.
pub open spec fn atan_rev_64_fixed_part2_spec(u: int, x2: int) -> int {
    let u = mul_hi(u * 4, x2) + 254059076516313023;
    let u = mul_hi(u * 4, x2) - 299642723088611246;
    let u = mul_hi(u * 4, x2) + 342704169369303486;
    let u = mul_hi(u * 4, x2) - 390861562186048719;
    let u = mul_hi(u * 4, x2) + 451579001799217900;
    let u = mul_hi(u * 4, x2) - 533786914277431708;
    u
}

/// The second run of Horner steps of `atan_rev_64_fixed`.
fn atan_rev_64_fixed_part2(u0: i64, x2: i64) -> (r: i64)
    requires
        (-200228105177389631) <= u0 <= (-61079505590521460),
        0 <= x2 <= 4611686018427387904,
    ensures
        r == atan_rev_64_fixed_part2_spec(u0 as int, x2 as int),
        (-533786914277431708) <= r <= (-82207912478213808),
{
    let mut u: i64 = u0;
    proof {
        lemma_mul_hi_bounds((u * 4) as int, x2 as int, (-800912420709558524), (-244318022362085840), 4611686018427387904);
    }
    u = mults64hi(u * 4, x2) + 254059076516313023;
    proof {
        lemma_mul_hi_bounds((u * 4) as int, x2 as int, 215323885355693568, 1016236306065252092, 4611686018427387904);
    }
    u = mults64hi(u * 4, x2) - 299642723088611246;
    proof {
        lemma_mul_hi_bounds((u * 4) as int, x2 as int, (-1198570892354444984), (-182334586289192892), 4611686018427387904);
    }
    u = mults64hi(u * 4, x2) + 342704169369303486;
    proof {
        lemma_mul_hi_bounds((u * 4) as int, x2 as int, 172245785122768960, 1370816677477213944, 4611686018427387904);
    }
    u = mults64hi(u * 4, x2) - 390861562186048719;
    proof {
        lemma_mul_hi_bounds((u * 4) as int, x2 as int, (-1563446248744194876), (-192629571266980932), 4611686018427387904);
    }
    u = mults64hi(u * 4, x2) + 451579001799217900;
    proof {
        lemma_mul_hi_bounds((u * 4) as int, x2 as int, 242869758452676724, 1806316007196871600, 4611686018427387904);
    }
    u = mults64hi(u * 4, x2) - 533786914277431708;
    u
}

/// The third run of Horner steps of `atan_rev_64_fixed_spec`, from the running value
/// `u` with the argument `x2`.
pub open spec fn atan_rev_64_fixed_part3_spec(u: int, x2: int) -> int {
    let u = mul_hi(u * 4, x2) + 652419191806999136;
    let u = mul_hi(u * 4, x2) - 838825810258490282;
    let u = mul_hi(u * 4, x2) + 1174356199883959617;
    let u = mul_hi(u * 4, x2) - 1957260335501202067;
    let u = mul_hi(u, x2) * 4 + 5871781006563920011;
    u
}

/// The third run of Horner steps of `atan_rev_64_fixed`.
fn atan_rev_64_fixed_part3(u0: i64, x2: i64) -> (r: i64)
    requires
        (-533786914277431708) <= u0 <= (-82207912478213808),
        0 <= x2 <= 4611686018427387904,
    ensures
        r == atan_rev_64_fixed_part3_spec(u0 as int, x2 as int),
        3914520671062717943 <= r <= 5871781006563920011,
{
    let mut u: i64 = u0;
    proof {
        lemma_mul_hi_bounds((u * 4) as int, x2 as int, (-2135147657109726832), (-328831649912855232), 4611686018427387904);
    }
    u = mults64hi(u * 4, x2) + 652419191806999136;
    proof {
        lemma_mul_hi_bounds((u * 4) as int, x2 as int, 474529110118269712, 2609676767227996544, 4611686018427387904);
    }
    u = mults64hi(u * 4, x2) - 838825810258490282;
    proof {
        lemma_mul_hi_bounds((u * 4) as int, x2 as int, (-3355303241033961128), (-745626473805964584), 4611686018427387904);
    }
    u = mults64hi(u * 4, x2) + 1174356199883959617;
    proof {
        lemma_mul_hi_bounds((u * 4) as int, x2 as int, 1342121558501877340, 4697424799535838468, 4611686018427387904);
    }
    u = mults64hi(u * 4, x2) - 1957260335501202067;
    proof {
        lemma_mul_hi_bounds((u) as int, x2 as int, (-1957260335501202067), (-782904135617242450), 4611686018427387904);
    }
    u = mults64hi(u, x2) * 4 + 5871781006563920011;
    u
}

/// An odd polynomial in `x / 2^62`, evaluated by Horner's rule in
/// the square of `x` with every product rounded down: the arctangent of
/// `x / 2^62` in eighths of a turn, in units of `2^-62`.
pub open spec fn atan_rev_64_fixed_spec(x: int) -> int {
    let x2 = mul_hi(x, x) * 4;
    let u = -237264505088513int;
    let u = atan_rev_64_fixed_part1_spec(u, x2);
    let u = atan_rev_64_fixed_part2_spec(u, x2);
    let u = atan_rev_64_fixed_part3_spec(u, x2);
    mul_hi(u, x) * 4
}

/// The arctangent of `x` in eighths of a turn, for `x` in `[0, 1]` as a
/// fixed-point fraction of `2^62`; the result is a fraction of `2^62` as well.
pub fn atan_rev_64_fixed(xu: u64) -> (r: u64)
    requires
        xu <= 4611686018427387904,
    ensures
        r == atan_rev_64_fixed_spec(xu as int),
        r <= 5871781006563920008,
{
    let x: i64 = xu as i64;
    proof {
        lemma_mul_hi_bounds(x as int, x as int, 0, 4611686018427387904, 4611686018427387904);
    }
    let x2: i64 = mults64hi(x, x) * 4;
    let mut u: i64 = -237264505088513;
    u = atan_rev_64_fixed_part1(u, x2);
    u = atan_rev_64_fixed_part2(u, x2);
    u = atan_rev_64_fixed_part3(u, x2);
    proof {
        lemma_mul_hi_bounds(u as int, x as int, 3914520671062717943, 5871781006563920011, 4611686018427387904);
    }
    let v: u64 = mults64hi(u, x) as u64;
    v * 4
}

} // verus!
