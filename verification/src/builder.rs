//! Building a packed real from an integer mantissa and a decimal or binary
//! exponent.

use vstd::prelude::*;
use vstd::arithmetic::power2::{pow2, lemma_pow2_pos, lemma_pow2_adds, lemma2_to64};
use crate::bits::{two62, two63, trunc_div, lead_bits, lemma_lead_bits, lemma_pow2_monotonic, lemma_wrap64_id, leading_bits, sar, shl};
use crate::pseudo_double::{PseudoDouble, pack};

verus! {

/// `d` times `10^e`, with the binary exponent that was split off on the way.
/// Before each multiplication by ten, `d` is moved down to leave five
/// redundant leading bits, and the places it moved are counted in `nexp`.
pub open spec fn scale_up(d: int, e: nat, nexp: int) -> (int, int)
    decreases e,
{
    if e == 0 {
        (d, nexp)
    } else {
        let lb = lead_bits(d);
        if lb < 5 {
            scale_up(d / (pow2((5 - lb) as nat) as int) * 10, (e - 1) as nat, nexp + 5 - lb)
        } else {
            scale_up(d * 10, (e - 1) as nat, nexp)
        }
    }
}

/// `d` over `10^e`, with the binary exponent that was split off on the way.
/// Before each division by ten, which rounds towards zero, `d` is moved up
/// to fill the word, and the places it moved are taken off `nexp`.
pub open spec fn scale_down(d: int, e: nat, nexp: int) -> (int, int)
    decreases e,
{
    if e == 0 {
        (d, nexp)
    } else {
        let lb = lead_bits(d);
        if lb > 1 {
            scale_down(
                trunc_div(d * pow2((lb - 1) as nat), 10),
                (e - 1) as nat,
                nexp - (lb - 1),
            )
        } else {
            scale_down(trunc_div(d, 10), (e - 1) as nat, nexp)
        }
    }
}

/// The word for `d * 2^e`: `d` normalized, with the exponent that belongs to
/// it. The exponent field is not checked against its range.
pub open spec fn spec_pdc2(d: int, e: int) -> PseudoDouble {
    if d == 0 {
        PseudoDouble(0)
    } else {
        pack(d * pow2((lead_bits(d) - 1) as nat), 32833 - lead_bits(d) + e)
    }
}

/// Whether the exponent of `d * 2^e` is within its field, so that the word
/// is well-formed.
pub open spec fn pdc2_in_range(d: int, e: int) -> bool {
    d == 0 || 0 <= 32833 - lead_bits(d) + e <= 65535
}

/// Whether the exponent of `dd * 10^ee` is within its field.
pub open spec fn pdc10_in_range(dd: int, ee: int) -> bool {
    dd == 0 || (if ee > 0 {
        pdc2_in_range(scale_up(dd, ee as nat, 0).0, scale_up(dd, ee as nat, 0).1)
    } else {
        pdc2_in_range(scale_down(dd, (-ee) as nat, 0).0, scale_down(dd, (-ee) as nat, 0).1)
    })
}

/// The word for `dd * 10^ee`, as the scaling loops round it.
pub open spec fn spec_pdc10(dd: int, ee: int) -> PseudoDouble {
    if dd == 0 {
        PseudoDouble(0)
    } else {
        let (d, n) = if ee > 0 {
            scale_up(dd, ee as nat, 0)
        } else {
            scale_down(dd, (-ee) as nat, 0)
        };
        spec_pdc2(d, n)
    }
}

/// A nonzero word moved down to leave five redundant leading bits stays
/// nonzero and is below `2^59` in magnitude.
proof fn lemma_headroom(v: int)
    requires
        -two63() <= v < two63(),
        v != 0,
    ensures
        lead_bits(v) < 5 ==> {
            let q = v / (pow2((5 - lead_bits(v)) as nat) as int);
            -0x0800_0000_0000_0000 <= q <= 0x0800_0000_0000_0000 && q != 0 && (q < 0) == (v < 0)
        },
        lead_bits(v) >= 5 ==> -0x0800_0000_0000_0000 <= v <= 0x0800_0000_0000_0000,
{
    lemma_lead_bits(v);
    lemma2_to64();
    let lb = lead_bits(v);
    let p = pow2((lb - 1) as nat) as int;
    lemma_pow2_pos((lb - 1) as nat);
    if lb < 5 {
        let k = pow2((5 - lb) as nat) as int;
        lemma_pow2_pos((5 - lb) as nat);
        lemma_pow2_adds((lb - 1) as nat, (5 - lb) as nat);
        let q = v / k;
        let r = v % k;
        vstd::arithmetic::div_mod::lemma_fundamental_div_mod(v, k);
        vstd::arithmetic::div_mod::lemma_mod_bound(v, k);
        if v > 0 {
            assert(0x0400_0000_0000_0000 <= q <= 0x0800_0000_0000_0000) by (nonlinear_arith)
                requires
                    v == k * q + r,
                    0 <= r < k,
                    p * k == 16,
                    p > 0,
                    k > 0,
                    two62() <= v * p < two63(),
            ;
        } else {
            assert(-0x0800_0000_0000_0000 <= q < -0x0300_0000_0000_0000) by (nonlinear_arith)
                requires
                    v == k * q + r,
                    0 <= r < k,
                    p * k == 16,
                    p > 0,
                    k > 0,
                    -two63() <= v * p < -two62(),
            ;
        }
    } else {
        lemma_pow2_monotonic(4, (lb - 1) as nat);
        assert(-0x0800_0000_0000_0000 <= v <= 0x0800_0000_0000_0000) by (nonlinear_arith)
            requires
                p >= 16,
                -two63() <= v * p < two63(),
        ;
    }
}

impl PseudoDouble {
    /// The number `d * 2^e`.
    pub fn pdc2(d: i64, e: i32) -> (r: PseudoDouble)
        ensures
            r == spec_pdc2(d as int, e as int),
            pdc2_in_range(d as int, e as int) ==> r.wf(),
    {
        Self::pdc2_wide(d, e as i64)
    }

    /// The number `d * 2^e`, for an exponent of any size that the scaling
    /// loops can reach.
    fn pdc2_wide(d: i64, e: i64) -> (r: PseudoDouble)
        requires
            -0x1_0000_0000_0000 <= e <= 0x1_0000_0000_0000,
        ensures
            r == spec_pdc2(d as int, e as int),
            pdc2_in_range(d as int, e as int) ==> r.wf(),
    {
        if d == 0 {
            return PseudoDouble(0);
        }
        let lb: u32 = leading_bits(d);
        proof {
            lemma_lead_bits(d as int);
            lemma_wrap64_id(d * pow2((lb - 1) as nat));
            if pdc2_in_range(d as int, e as int) {
                crate::wellformed::lemma_pack_wf(d * pow2((lb - 1) as nat), 32833 - lb + e);
            }
        }
        Self::compose(shl(d, lb - 1), 0x8000 + 65 - lb as i64 + e)
    }

    /// The number `dd * 10^ee`.
    pub fn pdc10(dd: i64, ee: i32) -> (r: PseudoDouble)
        ensures
            r == spec_pdc10(dd as int, ee as int),
            pdc10_in_range(dd as int, ee as int) ==> r.wf(),
    {
        if dd == 0 {
            return PseudoDouble(0);
        }
        let mut d: i64 = dd;
        let mut e: i64 = ee as i64;
        let mut nexp: i64 = 0;
        while e > 0
            invariant
                d != 0,
                -0x8000_0000 <= e <= 0x8000_0000,
                ee > 0 ==> e >= 0 && 0 <= nexp <= 4 * (ee - e) && scale_up(
                    d as int,
                    e as nat,
                    nexp as int,
                ) == scale_up(dd as int, ee as nat, 0),
                ee <= 0 ==> e == ee && d == dd && nexp == 0,
            decreases e,
        {
            let lb: u32 = leading_bits(d);
            proof {
                lemma_headroom(d as int);
            }
            if lb < 5 {
                d = sar(d, 5 - lb);
                nexp = nexp + (5 - lb) as i64;
            }
            d = d * 10;
            e = e - 1;
        }
        while e < 0
            invariant
                d != 0,
                -0x8000_0000 <= e <= 0,
                ee > 0 ==> e == 0 && 0 <= nexp <= 4 * ee && (d as int, nexp as int) == scale_up(
                    dd as int,
                    ee as nat,
                    0,
                ),
                ee <= 0 ==> -63 * (e - ee) <= nexp <= 0 && scale_down(
                    d as int,
                    (-e) as nat,
                    nexp as int,
                ) == scale_down(dd as int, (-ee) as nat, 0),
            decreases -e,
        {
            let lb: u32 = leading_bits(d);
            proof {
                lemma_lead_bits(d as int);
                lemma_wrap64_id(d * pow2((lb - 1) as nat));
            }
            if lb > 1 {
                d = shl(d, lb - 1);
                nexp = nexp - (lb - 1) as i64;
            }
            proof {
                lemma2_to64();
                assert(d >= two62() || d < -two62());
            }
            d = d / 10;
            e = e + 1;
        }
        Self::pdc2_wide(d, nexp)
    }

    /// The number `dd * 10^ee`.
    pub fn pd_create_mantissa_exp10(dd: i64, ee: i32) -> (r: PseudoDouble)
        ensures
            r == spec_pdc10(dd as int, ee as int),
            pdc10_in_range(dd as int, ee as int) ==> r.wf(),
    {
        Self::pdc10(dd, ee)
    }

    /// The number `d * 2^e`.
    pub fn pd_create_mantissa_exp2(d: i64, e: i32) -> (r: PseudoDouble)
        ensures
            r == spec_pdc2(d as int, e as int),
            pdc2_in_range(d as int, e as int) ==> r.wf(),
    {
        Self::pdc2(d, e)
    }
}

} // verus!
