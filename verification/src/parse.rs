//! Reading a packed real from decimal text: an optional minus sign, a run of
//! digits, and optionally a point and a second run of digits.

use vstd::prelude::*;
use vstd::string::StringSliceAdditionalSpecFns;
use crate::pseudo_double::{PseudoDouble, encode_int};

verus! {

/// Whether the byte is a decimal digit.
pub open spec fn is_digit(b: u8) -> bool {
    48 <= b <= 57
}

/// The first index from `i` on at which `s` holds no digit.
pub open spec fn digits_end(s: Seq<u8>, i: int) -> int
    decreases s.len() - i,
{
    if 0 <= i < s.len() && is_digit(s[i]) {
        digits_end(s, i + 1)
    } else {
        i
    }
}

/// The decimal number that the bytes of `s` from `i` up to `j` spell.
pub open spec fn digits_value(s: Seq<u8>, i: int, j: int) -> int
    decreases j - i,
{
    if j <= i {
        0
    } else {
        digits_value(s, i, j - 1) * 10 + (s[j - 1] - 48)
    }
}

/// Ten to the power `n`.
pub open spec fn pow10(n: nat) -> int
    decreases n,
{
    if n == 0 {
        1
    } else {
        10 * pow10((n - 1) as nat)
    }
}

/// Where the digits of the text start: behind the sign, if there is one.
pub open spec fn digits_start(s: Seq<u8>) -> int {
    if s.len() > 0 && s[0] == 45 {
        1
    } else {
        0
    }
}

/// Whether the numbers in the text fit the machine: the digits before the
/// point spell a number below `2^63`, and no more than 18 digits follow the
/// point.
pub open spec fn parse_fits(s: Seq<u8>) -> bool {
    let start = digits_start(s);
    let j = digits_end(s, start);
    digits_value(s, start, j) < 0x8000_0000_0000_0000 && (j < s.len() && s[j] == 46
        ==> digits_end(s, j + 1) - (j + 1) <= 18)
}

/// The number that the text spells, or nothing where it is not of the form
/// `-?[0-9]*(\\.[0-9]*)?` with at least one byte behind the sign. With a
/// point, the result is the whole part plus the quotient of the digits
/// behind the point by the power of ten of their count.
pub open spec fn spec_parse(s: Seq<u8>) -> Option<PseudoDouble> {
    let start = digits_start(s);
    if start >= s.len() {
        None
    } else {
        let j = digits_end(s, start);
        let acc = digits_value(s, start, j);
        if j == s.len() {
            Some(encode_int(if start == 1 { -acc } else { acc }))
        } else if s[j] != 46 {
            None
        } else {
            let k = digits_end(s, j + 1);
            if k != s.len() {
                None
            } else {
                let ret = encode_int(acc).spec_add(
                    encode_int(digits_value(s, j + 1, k)).spec_div(
                        encode_int(pow10((k - j - 1) as nat)),
                    ),
                );
                Some(if start == 1 { ret.spec_neg() } else { ret })
            }
        }
    }
}

/// The run of digits from `i` ends at `j` if digits fill the gap and none
/// stands at `j`.
proof fn lemma_digits_end(s: Seq<u8>, i: int, j: int)
    requires
        0 <= i <= j <= s.len(),
        forall|k: int| i <= k < j ==> is_digit(#[trigger] s[k]),
        j == s.len() || !is_digit(s[j]),
    ensures
        digits_end(s, i) == j,
    decreases j - i,
{
    if i < j {
        lemma_digits_end(s, i + 1, j);
    }
}

/// A run of digits spells a number that is not negative, not below what a
/// shorter run from the same start spells, and below the power of ten of
/// its length.
proof fn lemma_digits_value(s: Seq<u8>, i: int, j: int, k: int)
    requires
        0 <= i <= j <= k <= s.len(),
        forall|n: int| i <= n < k ==> is_digit(#[trigger] s[n]),
    ensures
        0 <= digits_value(s, i, j) <= digits_value(s, i, k),
        digits_value(s, i, j) < pow10((j - i) as nat),
    decreases k - i,
{
    if j > i {
        lemma_digits_value(s, i, j - 1, j - 1);
    }
    if k > j {
        lemma_digits_value(s, i, j, k - 1);
    }
}

/// Powers of ten grow with the exponent.
proof fn lemma_pow10_monotonic(n: nat, m: nat)
    requires
        n <= m,
    ensures
        1 <= pow10(n) <= pow10(m),
    decreases m,
{
    if n < m {
        lemma_pow10_monotonic(n, (m - 1) as nat);
    } else if n > 0 {
        lemma_pow10_monotonic((n - 1) as nat, (n - 1) as nat);
    }
}

/// Powers of ten up to the eighteenth.
proof fn lemma_pow10_bound(n: nat)
    requires
        n <= 18,
    ensures
        1 <= pow10(n) <= 1_000_000_000_000_000_000,
{
    lemma_pow10_monotonic(n, 18);
    reveal_with_fuel(pow10, 20);
    assert(pow10(18) == 1_000_000_000_000_000_000);
}

/// Reads the run of digits of `b` from `i`: where it ends, and what it
/// spells.
fn read_digits(b: &[u8], i: usize, limit: u64) -> (r: (usize, i64))
    requires
        i <= b@.len(),
        limit < 0x8000_0000_0000_0000,
        digits_value(b@, i as int, digits_end(b@, i as int)) <= limit,
    ensures
        r.0 == digits_end(b@, i as int),
        i <= r.0 <= b@.len(),
        r.1 == digits_value(b@, i as int, r.0 as int),
        0 <= r.1,
        forall|n: int| i <= n < r.0 ==> is_digit(#[trigger] b@[n]),
{
    let mut j: usize = i;
    let mut acc: i64 = 0;
    while j < b.len() && b[j] >= 48 && b[j] <= 57
        invariant
            i <= j <= b@.len(),
            limit < 0x8000_0000_0000_0000,
            acc == digits_value(b@, i as int, j as int),
            0 <= acc,
            forall|n: int| i <= n < j ==> is_digit(#[trigger] b@[n]),
            digits_value(b@, i as int, digits_end(b@, i as int)) <= limit,
        decreases b@.len() - j,
    {
        proof {
            let end = digits_end(b@, j as int);
            lemma_digits_end_bound(b@, j + 1);
            assert(end > j);
            assert forall|n: int| j <= n < end implies is_digit(#[trigger] b@[n]) by {
                lemma_digits_run(b@, j as int, n);
            }
            lemma_digits_end_join(b@, i as int, j as int);
            lemma_digits_value(b@, i as int, j + 1, end);
        }
        acc = acc * 10 + (b[j] - 48) as i64;
        j = j + 1;
    }
    proof {
        lemma_digits_end(b@, i as int, j as int);
    }
    (j, acc)
}

/// Every index inside the run of digits from `i` holds a digit.
proof fn lemma_digits_run(s: Seq<u8>, i: int, n: int)
    requires
        0 <= i <= n < digits_end(s, i),
    ensures
        is_digit(s[n]),
        digits_end(s, i) <= s.len(),
    decreases n - i,
{
    if i < n {
        lemma_digits_run(s, i + 1, n);
    } else {
        lemma_digits_end_bound(s, i + 1);
    }
}

/// A run of digits ends inside the text.
proof fn lemma_digits_end_bound(s: Seq<u8>, i: int)
    requires
        0 <= i <= s.len(),
    ensures
        i <= digits_end(s, i) <= s.len(),
    decreases s.len() - i,
{
    if i < s.len() && is_digit(s[i]) {
        lemma_digits_end_bound(s, i + 1);
    }
}

/// The run of digits from `i` goes on through a later index `j` that it
/// reaches.
proof fn lemma_digits_end_join(s: Seq<u8>, i: int, j: int)
    requires
        0 <= i <= j <= s.len(),
        forall|n: int| i <= n < j ==> is_digit(#[trigger] s[n]),
    ensures
        digits_end(s, i) == digits_end(s, j),
    decreases j - i,
{
    if i < j {
        lemma_digits_end_join(s, i + 1, j);
    }
}

/// Whether the run of digits of `b` from `i` spells a number up to `limit`.
fn digits_fit(b: &[u8], i: usize, limit: u64) -> (r: (bool, usize))
    requires
        i <= b@.len(),
        limit < 0x8000_0000_0000_0000,
    ensures
        r.0 == (digits_value(b@, i as int, digits_end(b@, i as int)) <= limit),
        r.0 ==> r.1 == digits_end(b@, i as int),
{
    let mut j: usize = i;
    let mut acc: u64 = 0;
    while j < b.len() && b[j] >= 48 && b[j] <= 57
        invariant
            i <= j <= b@.len(),
            limit < 0x8000_0000_0000_0000,
            acc == digits_value(b@, i as int, j as int),
            acc <= limit,
            forall|n: int| i <= n < j ==> is_digit(#[trigger] b@[n]),
        decreases b@.len() - j,
    {
        let d: u64 = (b[j] - 48) as u64;
        proof {
            let end = digits_end(b@, j as int);
            lemma_digits_end_bound(b@, j + 1);
            assert forall|n: int| j <= n < end implies is_digit(#[trigger] b@[n]) by {
                lemma_digits_run(b@, j as int, n);
            }
            lemma_digits_end_join(b@, i as int, j as int);
            lemma_digits_value(b@, i as int, j + 1, end);
        }
        if limit < d || acc > (limit - d) / 10 {
            return (false, j);
        }
        acc = acc * 10 + d;
        j = j + 1;
    }
    proof {
        lemma_digits_end(b@, i as int, j as int);
    }
    (true, j)
}

impl PseudoDouble {
    /// Whether the numbers in the text fit the machine, so that the text can
    /// be read.
    pub fn string_fits(s: &str) -> (r: bool)
        ensures
            r == parse_fits(s.spec_bytes()),
    {
        let b: &[u8] = s.as_bytes();
        let n: usize = b.len();
        let start: usize = if n > 0 && b[0] == 45 { 1 } else { 0 };
        let (fits, j) = digits_fit(b, start, 0x7FFF_FFFF_FFFF_FFFF);
        if !fits {
            return false;
        }
        if j < n && b[j] == 46 {
            let mut k: usize = j + 1;
            while k < n && b[k] >= 48 && b[k] <= 57
                invariant
                    j + 1 <= k <= n,
                    n == b@.len(),
                    b@ == s.spec_bytes(),
                    k - (j + 1) <= 18,
                    digits_start(b@) == start,
                    digits_end(b@, start as int) == j,
                    b@[j as int] == 46,
                    forall|m: int| j + 1 <= m < k ==> is_digit(#[trigger] b@[m]),
                decreases n - k,
            {
                if k - (j + 1) >= 18 {
                    proof {
                        assert(is_digit(b@[k as int]));
                        lemma_digits_end_join(b@, j + 1, k as int);
                        lemma_digits_end_bound(b@, k + 1);
                        assert(digits_end(b@, k as int) == digits_end(b@, k + 1));
                        assert(digits_end(b@, j + 1) >= k + 1);
                    }
                    return false;
                }
                k = k + 1;
            }
            proof {
                lemma_digits_end(b@, j + 1, k as int);
            }
        }
        true
    }

    /// Reads a number from decimal text. There is no exponent notation, and
    /// no space is skipped.
    pub fn string_to_pd(s: &str) -> (r: Option<PseudoDouble>)
        requires
            parse_fits(s.spec_bytes()),
        ensures
            r == spec_parse(s.spec_bytes()),
            r.is_some() ==> r.unwrap().wf(),
    {
        let b: &[u8] = s.as_bytes();
        let n: usize = b.len();
        if n == 0 {
            return None;
        }
        let neg: bool = b[0] == 45;
        let start: usize = if neg { 1 } else { 0 };
        if start >= n {
            return None;
        }
        let (j, acc) = read_digits(b, start, 0x7FFF_FFFF_FFFF_FFFF);
        if j == n {
            return Some(PseudoDouble::from_i64(if neg { -acc } else { acc }));
        }
        if b[j] != 46 {
            return None;
        }
        proof {
            let k = digits_end(b@, j + 1);
            lemma_digits_end_bound(b@, j + 1);
            assert forall|m: int| j + 1 <= m < k implies is_digit(#[trigger] b@[m]) by {
                lemma_digits_run(b@, j + 1, m);
            }
            lemma_digits_value(b@, j + 1, k, k);
            lemma_pow10_bound((k - j - 1) as nat);
        }
        let (k, frac_num) = read_digits(b, j + 1, 999_999_999_999_999_999);
        if k != n {
            return None;
        }
        let mut frac_den: i64 = 1;
        let mut i: usize = j + 1;
        while i < k
            invariant
                j + 1 <= i <= k,
                k - (j + 1) <= 18,
                frac_den == pow10((i - j - 1) as nat),
            decreases k - i,
        {
            proof {
                lemma_pow10_bound((i - j) as nat);
            }
            frac_den = frac_den * 10;
            i = i + 1;
        }
        proof {
            lemma_pow10_bound((k - j - 1) as nat);
        }
        let whole: PseudoDouble = PseudoDouble::from_i64(acc);
        let numerator: PseudoDouble = PseudoDouble::from_i64(frac_num);
        let denominator: PseudoDouble = PseudoDouble::from_i64(frac_den);
        proof {
            crate::wellformed::lemma_div_expo(numerator, denominator);
            crate::wellformed::lemma_add_fits(whole, numerator.spec_div(denominator));
        }
        let ret: PseudoDouble = whole.const_add(numerator.const_div(denominator));
        Some(if neg { ret.const_neg() } else { ret })
    }

    /// Reads a number from text in the given radix. Only radix ten is read.
    pub fn from_str_radix(s: &str, radix: u32) -> (r: Option<PseudoDouble>)
        requires
            radix == 10 ==> parse_fits(s.spec_bytes()),
        ensures
            r == (if radix == 10 { spec_parse(s.spec_bytes()) } else { None }),
            r.is_some() ==> r.unwrap().wf(),
    {
        if radix != 10 {
            return None;
        }
        Self::string_to_pd(s)
    }

    /// Reads a number from decimal text.
    pub fn string_to_pdi(s: &str) -> (r: Option<PseudoDouble>)
        requires
            parse_fits(s.spec_bytes()),
        ensures
            r == spec_parse(s.spec_bytes()),
            r.is_some() ==> r.unwrap().wf(),
    {
        Self::string_to_pd(s)
    }
}

} // verus!
