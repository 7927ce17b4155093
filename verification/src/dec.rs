//! Fixed-precision decimal reals: sign, a 14-digit mantissa and a decimal
//! exponent clamped to (-300, 300), plus the two signed infinities.
//!
//! A finite nonzero value `Fin { neg, m, e }` denotes `±m * 10^(e - 13)`,
//! with `m` normalized to `[10^13, 10^14)`, so `e` is the decimal exponent
//! (the value lies in `[10^e, 10^(e+1))`).  Every operation rounds its exact
//! result back to 14 significant digits, ties to even; a result whose
//! exponent would reach 300 collapses to a signed infinity, and one whose
//! exponent would reach -300 collapses to exact zero.  Operands more than 15
//! orders of magnitude apart leave the larger operand of a sum unchanged.

use vstd::prelude::*;

verus! {

/// Smallest normalized 14-digit mantissa, `10^13`.
pub const MANT_MIN: u64 = 10_000_000_000_000;

/// One past the largest 14-digit mantissa, `10^14`.
pub const MANT_LIM: u64 = 100_000_000_000_000;

/// Largest representable decimal exponent; `EXP_MAX + 1` collapses to infinity.
pub const EXP_MAX: i16 = 299;

/// A fixed-precision decimal real.
#[derive(Clone, Copy, Debug, PartialEq, Eq, Structural)]
pub enum Dec {
    /// Exact zero (unsigned: negative zero collapses here).
    Zero,
    /// `±m * 10^(e - 13)` with `MANT_MIN <= m < MANT_LIM`.
    Fin { neg: bool, m: u64, e: i16 },
    /// A signed infinity.
    Inf { neg: bool },
}

/// Well-formedness: the mantissa is normalized and the exponent in range.
pub open spec fn dec_wf(d: Dec) -> bool {
    match d {
        Dec::Zero => true,
        Dec::Fin { neg, m, e } => MANT_MIN <= m < MANT_LIM && -(EXP_MAX as int) <= e
            <= EXP_MAX as int,
        Dec::Inf { .. } => true,
    }
}

/// `10^n`.
pub open spec fn pow10(n: nat) -> int
    decreases n,
{
    if n == 0 {
        1
    } else {
        10 * pow10((n - 1) as nat)
    }
}

/// Number of decimal digits of `m` (1 for `m < 10`).
pub open spec fn n_digits(m: int) -> nat
    decreases m,
{
    if m < 10 {
        1
    } else {
        1 + n_digits(m / 10)
    }
}

pub proof fn lemma_pow10_values()
    ensures
        pow10(0) == 1,
        pow10(1) == 10,
        pow10(2) == 100,
        pow10(13) == MANT_MIN,
        pow10(14) == MANT_LIM,
        pow10(15) == 1_000_000_000_000_000,
        pow10(16) == 10_000_000_000_000_000,
        pow10(19) == 10_000_000_000_000_000_000,
        pow10(26) == 100000000000000000000000000,
        pow10(28) == 10000000000000000000000000000,
        pow10(29) == 100000000000000000000000000000,
        pow10(30) == 1000000000000000000000000000000,
        pow10(34) == 10000000000000000000000000000000000,
        pow10(39) == 1000000000000000000000000000000000000000,
{
    reveal_with_fuel(pow10, 40);
}

pub proof fn lemma_pow10_pos(n: nat)
    ensures
        pow10(n) >= 1,
    decreases n,
{
    if n > 0 {
        lemma_pow10_pos((n - 1) as nat);
    }
}

pub proof fn lemma_pow10_mono(a: nat, b: nat)
    requires
        a <= b,
    ensures
        pow10(a) <= pow10(b),
    decreases b,
{
    if a < b {
        lemma_pow10_mono(a, (b - 1) as nat);
        lemma_pow10_pos(a);
    }
}

pub proof fn lemma_pow10_adds(a: nat, b: nat)
    ensures
        pow10(a + b) == pow10(a) * pow10(b),
    decreases a,
{
    if a == 0 {
    } else {
        lemma_pow10_adds((a - 1) as nat, b);
        assert(pow10(a + b) == 10 * pow10((a + b - 1) as nat));
        assert(10 * (pow10((a - 1) as nat) * pow10(b)) == (10 * pow10((a - 1) as nat)) * pow10(b))
            by (nonlinear_arith);
    }
}

/// `m` with `d` digits lies in `[10^(d-1), 10^d)`.
pub proof fn lemma_n_digits_bounds(m: int)
    requires
        m >= 1,
    ensures
        pow10((n_digits(m) - 1) as nat) <= m < pow10(n_digits(m)),
    decreases m,
{
    if m >= 10 {
        lemma_n_digits_bounds(m / 10);
    }
}

/// Digit count is determined by the bracketing powers of ten.
pub proof fn lemma_n_digits_of_range(m: int, d: nat)
    requires
        d >= 1,
        pow10((d - 1) as nat) <= m < pow10(d),
    ensures
        n_digits(m) == d,
    decreases d,
{
    if d == 1 {
    } else {
        lemma_pow10_pos((d - 2) as nat);
        lemma_n_digits_of_range(m / 10, (d - 1) as nat);
    }
}

/// Exact count of the decimal digits of `m` (1 for zero).
pub fn digits_u128(m: u128) -> (d: u32)
    ensures
        d == n_digits(m as int),
        1 <= d <= 39,
{
    proof {
        if m >= 1 && n_digits(m as int) > 39 {
            lemma_n_digits_bounds(m as int);
            lemma_pow10_values();
            lemma_pow10_mono(39, (n_digits(m as int) - 1) as nat);
        }
    }
    let mut t: u128 = m;
    let mut d: u32 = 1;
    while t >= 10
        invariant
            n_digits(m as int) == d - 1 + n_digits(t as int),
            1 <= d,
            d - 1 + n_digits(t as int) <= 39,
        decreases t,
    {
        t = t / 10;
        d = d + 1;
    }
    d
}

/// Power of ten as `u64`.
pub fn pow10_u64(n: u32) -> (r: u64)
    requires
        n <= 19,
    ensures
        r == pow10(n as nat),
{
    proof {
        lemma_pow10_values();
    }
    let mut r: u64 = 1;
    let mut i: u32 = 0;
    while i < n
        invariant
            i <= n <= 19,
            r == pow10(i as nat),
        decreases n - i,
    {
        proof {
            lemma_pow10_mono(i as nat + 1, 19);
            lemma_pow10_values();
        }
        r = r * 10;
        i = i + 1;
    }
    r
}

/// Power of ten as `u128`.
pub fn pow10_u128(n: u32) -> (r: u128)
    requires
        n <= 34,
    ensures
        r == pow10(n as nat),
{
    proof {
        lemma_pow10_values();
    }
    let mut r: u128 = 1;
    let mut i: u32 = 0;
    while i < n
        invariant
            i <= n <= 34,
            r == pow10(i as nat),
        decreases n - i,
    {
        proof {
            lemma_pow10_mono(i as nat + 1, 34);
            lemma_pow10_values();
        }
        r = r * 10;
        i = i + 1;
    }
    r
}

/// Normalization of `±m * 10^q` to a well-formed [`Dec`]: round to 14
/// significant digits (ties to even, `sticky` marking a discarded nonzero
/// tail below the unit of `m`), then clamp the exponent.
pub open spec fn norm_spec(neg: bool, m: int, q: int, sticky: bool) -> Dec {
    if m == 0 {
        Dec::Zero
    } else {
        let d = n_digits(m);
        let scaled = if d <= 14 {
            (m * pow10((14 - d) as nat), q + d - 1)
        } else {
            let p = pow10((d - 14) as nat);
            let hi = m / p;
            let lo = m % p;
            let half = p / 2;
            let up = lo > half || (lo == half && (sticky || hi % 2 == 1));
            let rounded = if up {
                hi + 1
            } else {
                hi
            };
            if rounded == MANT_LIM {
                (MANT_MIN as int, q + d)
            } else {
                (rounded, q + d - 1)
            }
        };
        if scaled.1 > EXP_MAX as int {
            Dec::Inf { neg }
        } else if scaled.1 < -(EXP_MAX as int) {
            Dec::Zero
        } else {
            Dec::Fin { neg, m: scaled.0 as u64, e: scaled.1 as i16 }
        }
    }
}

/// Round `±m * 10^q` to a well-formed decimal.
pub fn norm(neg: bool, m: u128, q: i32, sticky: bool) -> (d: Dec)
    requires
        m < pow10(34),
        -3000 <= q <= 3000,
        sticky ==> m >= MANT_LIM,
    ensures
        d == norm_spec(neg, m as int, q as int, sticky),
        dec_wf(d),
{
    proof {
        lemma_pow10_values();
    }
    if m == 0 {
        return Dec::Zero;
    }
    let d = digits_u128(m);
    proof {
        lemma_n_digits_bounds(m as int);
        if d > 34 {
            lemma_pow10_mono(34, (d - 1) as nat);
            assert(false);
        }
    }
    let (mant, e0): (u64, i32) = if d <= 14 {
        let p = pow10_u64(14 - d);
        proof {
            lemma_pow10_mono(d as nat, 14);
            lemma_pow10_adds((d - 1) as nat, (14 - d) as nat);
            lemma_pow10_adds(d as nat, (14 - d) as nat);
            assert((m as int) * pow10((14 - d) as nat) >= pow10((d - 1) as nat) * pow10(
                (14 - d) as nat,
            )) by (nonlinear_arith)
                requires
                    (m as int) >= pow10((d - 1) as nat),
                    pow10((14 - d) as nat) >= 1,
            ;
            assert((m as int) * pow10((14 - d) as nat) < pow10((d) as nat) * pow10((14 - d) as nat))
                by (nonlinear_arith)
                requires
                    (m as int) < pow10((d) as nat),
                    pow10((14 - d) as nat) >= 1,
            ;
        }
        ((m as u64) * p, q + d as i32 - 1)
    } else {
        let p = pow10_u128(d - 14);
        proof {
            lemma_pow10_pos((d - 14) as nat);
            lemma_pow10_adds(14, (d - 14) as nat);
            lemma_pow10_adds(13, (d - 14) as nat);
            assert((m as int) / (p as int) < MANT_LIM as int && (m as int) / (p as int)
                >= MANT_MIN as int) by (nonlinear_arith)
                requires
                    p as int >= 1,
                    (m as int) < MANT_LIM as int * (p as int),
                    (m as int) >= MANT_MIN as int * (p as int),
            ;
        }
        let hi = m / p;
        let lo = m % p;
        let half = p / 2;
        let up = lo > half || (lo == half && (sticky || hi % 2 == 1));
        let rounded = if up {
            hi + 1
        } else {
            hi
        } as u64;
        if rounded == MANT_LIM {
            (MANT_MIN, q + d as i32)
        } else {
            (rounded, q + d as i32 - 1)
        }
    };
    if e0 > EXP_MAX as i32 {
        Dec::Inf { neg }
    } else if e0 < -(EXP_MAX as i32) {
        Dec::Zero
    } else {
        Dec::Fin { neg, m: mant, e: e0 as i16 }
    }
}

} // verus!

verus! {

/// Sum of two finite nonzero decimals, rounded.  Operands more than 15
/// orders of magnitude apart leave the larger one unchanged.
pub open spec fn add_fin_spec(an: bool, am: u64, ae: i16, bn: bool, bm: u64, be: i16) -> Dec {
    let swap = ae < be;
    let (hn, hm, he) = if swap {
        (bn, bm, be)
    } else {
        (an, am, ae)
    };
    let (ln, lm, le) = if swap {
        (an, am, ae)
    } else {
        (bn, bm, be)
    };
    if he - le > 15 {
        Dec::Fin { neg: hn, m: hm, e: he }
    } else {
        let mag = hm * pow10((he - le) as nat);
        if hn == ln {
            norm_spec(hn, mag + lm, le - 13, false)
        } else if mag >= lm {
            norm_spec(hn, mag - lm, le - 13, false)
        } else {
            norm_spec(ln, lm - mag, le - 13, false)
        }
    }
}

/// Sum of two decimals; `None` is the undefined case (opposite infinities).
pub open spec fn add_spec(a: Dec, b: Dec) -> Option<Dec> {
    match (a, b) {
        (Dec::Inf { neg: n1 }, Dec::Inf { neg: n2 }) => if n1 == n2 {
            Some(a)
        } else {
            None
        },
        (Dec::Inf { .. }, _) => Some(a),
        (_, Dec::Inf { .. }) => Some(b),
        (Dec::Zero, _) => Some(b),
        (_, Dec::Zero) => Some(a),
        (
            Dec::Fin { neg: an, m: am, e: ae },
            Dec::Fin { neg: bn, m: bm, e: be },
        ) => Some(add_fin_spec(an, am, ae, bn, bm, be)),
    }
}

/// The sign-flipped decimal.
pub open spec fn neg_spec(a: Dec) -> Dec {
    match a {
        Dec::Zero => Dec::Zero,
        Dec::Fin { neg, m, e } => Dec::Fin { neg: !neg, m, e },
        Dec::Inf { neg } => Dec::Inf { neg: !neg },
    }
}

/// Product of two decimals; `None` is the undefined case (zero times infinity).
pub open spec fn mul_spec(a: Dec, b: Dec) -> Option<Dec> {
    match (a, b) {
        (Dec::Inf { neg: n1 }, Dec::Inf { neg: n2 }) => Some(Dec::Inf { neg: n1 != n2 }),
        (Dec::Inf { neg: n1 }, Dec::Fin { neg: n2, .. }) => Some(Dec::Inf { neg: n1 != n2 }),
        (Dec::Fin { neg: n1, .. }, Dec::Inf { neg: n2 }) => Some(Dec::Inf { neg: n1 != n2 }),
        (Dec::Inf { .. }, Dec::Zero) => None,
        (Dec::Zero, Dec::Inf { .. }) => None,
        (Dec::Zero, _) => Some(Dec::Zero),
        (_, Dec::Zero) => Some(Dec::Zero),
        (
            Dec::Fin { neg: an, m: am, e: ae },
            Dec::Fin { neg: bn, m: bm, e: be },
        ) => Some(norm_spec(an != bn, am * bm, ae + be - 26, false)),
    }
}

/// Quotient of two decimals; `None` is the undefined case (zero over zero,
/// infinity over infinity).  A finite value over zero is a signed infinity.
pub open spec fn div_spec(a: Dec, b: Dec) -> Option<Dec> {
    match (a, b) {
        (Dec::Zero, Dec::Zero) => None,
        (Dec::Inf { .. }, Dec::Inf { .. }) => None,
        (Dec::Inf { neg: n1 }, Dec::Zero) => Some(Dec::Inf { neg: n1 }),
        (Dec::Inf { neg: n1 }, Dec::Fin { neg: n2, .. }) => Some(Dec::Inf { neg: n1 != n2 }),
        (Dec::Fin { neg: n1, .. }, Dec::Zero) => Some(Dec::Inf { neg: n1 }),
        (Dec::Zero, _) => Some(Dec::Zero),
        (Dec::Fin { .. }, Dec::Inf { .. }) => Some(Dec::Zero),
        (
            Dec::Fin { neg: an, m: am, e: ae },
            Dec::Fin { neg: bn, m: bm, e: be },
        ) => {
            let n = am * pow10(15);
            Some(norm_spec(an != bn, n / (bm as int), ae - be - 15, n % (bm as int) != 0))
        },
    }
}

/// Add two decimals, rounding the exact sum; `None` for opposite infinities.
pub fn dec_add(a: Dec, b: Dec) -> (r: Option<Dec>)
    requires
        dec_wf(a),
        dec_wf(b),
    ensures
        r == add_spec(a, b),
        match r {
            Some(d) => dec_wf(d),
            None => true,
        },
{
    proof {
        lemma_pow10_values();
    }
    match (a, b) {
        (Dec::Inf { neg: n1 }, Dec::Inf { neg: n2 }) => if n1 == n2 {
            Some(a)
        } else {
            None
        },
        (Dec::Inf { .. }, _) => Some(a),
        (_, Dec::Inf { .. }) => Some(b),
        (Dec::Zero, _) => Some(b),
        (_, Dec::Zero) => Some(a),
        (Dec::Fin { neg: an, m: am, e: ae }, Dec::Fin { neg: bn, m: bm, e: be }) => {
            let swap = ae < be;
            let (hn, hm, he) = if swap {
                (bn, bm, be)
            } else {
                (an, am, ae)
            };
            let (ln, lm, le) = if swap {
                (an, am, ae)
            } else {
                (bn, bm, be)
            };
            if he as i32 - le as i32 > 15 {
                Some(Dec::Fin { neg: hn, m: hm, e: he })
            } else {
                let p = pow10_u128((he as i32 - le as i32) as u32);
                proof {
                    lemma_pow10_pos((he - le) as nat);
                    lemma_pow10_mono((he - le) as nat, 15);
                    assert((hm as int) * pow10((he - le) as nat) <= MANT_LIM as int * pow10(15))
                        by (nonlinear_arith)
                        requires
                            (hm as int) <= MANT_LIM as int,
                            0 < pow10((he - le) as nat) <= pow10(15),
                    ;
                }
                let mag = (hm as u128) * p;
                let r = if hn == ln {
                    norm(hn, mag + lm as u128, le as i32 - 13, false)
                } else if mag >= lm as u128 {
                    norm(hn, mag - lm as u128, le as i32 - 13, false)
                } else {
                    norm(ln, lm as u128 - mag, le as i32 - 13, false)
                };
                Some(r)
            }
        },
    }
}

/// Flip the sign.
pub fn dec_neg(a: Dec) -> (r: Dec)
    requires
        dec_wf(a),
    ensures
        r == neg_spec(a),
        dec_wf(r),
{
    match a {
        Dec::Zero => Dec::Zero,
        Dec::Fin { neg, m, e } => Dec::Fin { neg: !neg, m, e },
        Dec::Inf { neg } => Dec::Inf { neg: !neg },
    }
}

/// Subtract two decimals; `None` for same-signed infinities.
pub fn dec_sub(a: Dec, b: Dec) -> (r: Option<Dec>)
    requires
        dec_wf(a),
        dec_wf(b),
    ensures
        r == add_spec(a, neg_spec(b)),
        match r {
            Some(d) => dec_wf(d),
            None => true,
        },
{
    let nb = dec_neg(b);
    dec_add(a, nb)
}

/// Multiply two decimals, rounding the exact product.
pub fn dec_mul(a: Dec, b: Dec) -> (r: Option<Dec>)
    requires
        dec_wf(a),
        dec_wf(b),
    ensures
        r == mul_spec(a, b),
        match r {
            Some(d) => dec_wf(d),
            None => true,
        },
{
    proof {
        lemma_pow10_values();
    }
    match (a, b) {
        (Dec::Inf { neg: n1 }, Dec::Inf { neg: n2 }) => Some(Dec::Inf { neg: n1 != n2 }),
        (Dec::Inf { neg: n1 }, Dec::Fin { neg: n2, .. }) => Some(Dec::Inf { neg: n1 != n2 }),
        (Dec::Fin { neg: n1, .. }, Dec::Inf { neg: n2 }) => Some(Dec::Inf { neg: n1 != n2 }),
        (Dec::Inf { .. }, Dec::Zero) => None,
        (Dec::Zero, Dec::Inf { .. }) => None,
        (Dec::Zero, _) => Some(Dec::Zero),
        (_, Dec::Zero) => Some(Dec::Zero),
        (Dec::Fin { neg: an, m: am, e: ae }, Dec::Fin { neg: bn, m: bm, e: be }) => {
            proof {
                assert((am as int) * (bm as int) < pow10(14) * pow10(14)) by (nonlinear_arith)
                    requires
                        0 <= (am as int) < pow10(14),
                        0 <= (bm as int) < pow10(14),
                ;
                lemma_pow10_adds(14, 14);
                lemma_pow10_mono(28, 34);
            }
            Some(norm(an != bn, (am as u128) * (bm as u128), ae as i32 + be as i32 - 26, false))
        },
    }
}

/// Divide two decimals, rounding the exact quotient.
pub fn dec_div(a: Dec, b: Dec) -> (r: Option<Dec>)
    requires
        dec_wf(a),
        dec_wf(b),
    ensures
        r == div_spec(a, b),
        match r {
            Some(d) => dec_wf(d),
            None => true,
        },
{
    proof {
        lemma_pow10_values();
    }
    match (a, b) {
        (Dec::Zero, Dec::Zero) => None,
        (Dec::Inf { .. }, Dec::Inf { .. }) => None,
        (Dec::Inf { neg: n1 }, Dec::Zero) => Some(Dec::Inf { neg: n1 }),
        (Dec::Inf { neg: n1 }, Dec::Fin { neg: n2, .. }) => Some(Dec::Inf { neg: n1 != n2 }),
        (Dec::Fin { neg: n1, .. }, Dec::Zero) => Some(Dec::Inf { neg: n1 }),
        (Dec::Zero, _) => Some(Dec::Zero),
        (Dec::Fin { .. }, Dec::Inf { .. }) => Some(Dec::Zero),
        (Dec::Fin { neg: an, m: am, e: ae }, Dec::Fin { neg: bn, m: bm, e: be }) => {
            let p15 = pow10_u128(15);
            proof {
                assert((am as int) * pow10(15) < pow10(14) * pow10(15)) by (nonlinear_arith)
                    requires
                        0 <= (am as int) < pow10(14),
                        pow10(15) > 0,
                ;
                assert((am as int) * pow10(15) >= pow10(13) * pow10(15)) by (nonlinear_arith)
                    requires
                        am as int >= pow10(13),
                        pow10(15) > 0,
                ;
                lemma_pow10_adds(14, 15);
                lemma_pow10_adds(13, 15);
                lemma_pow10_adds(14, 14);
            }
            let n = (am as u128) * p15;
            let qd = n / (bm as u128);
            let rem = n % (bm as u128);
            proof {
                assert(n as int / (bm as int) >= MANT_LIM as int) by (nonlinear_arith)
                    requires
                        0 < (bm as int) < MANT_LIM as int,
                        n as int >= pow10(13) * pow10(15),
                        pow10(13) * pow10(15) == pow10(14) * pow10(14),
                        MANT_LIM as int == pow10(14),
                ;
                lemma_pow10_mono(29, 34);
            }
            Some(norm(an != bn, qd, ae as i32 - be as i32 - 15, rem != 0))
        },
    }
}

} // verus!

verus! {

/// Does the decimal have a zero fractional part?
pub open spec fn is_int_dec(d: Dec) -> bool {
    match d {
        Dec::Zero => true,
        Dec::Fin { m, e, .. } => e >= 13 || (e >= 0 && (m as int) % pow10((13 - e) as nat) == 0),
        Dec::Inf { .. } => false,
    }
}

/// A real is shown (and canonicalized) as an integer exactly when its
/// fractional part is zero and its decimal exponent lies in `[0, 14)`.
pub open spec fn disp_as_int_spec(d: Dec) -> bool {
    match d {
        Dec::Zero => true,
        Dec::Fin { m, e, .. } => 0 <= e <= 13 && (e == 13 || (m as int) % pow10(
            (13 - e) as nat,
        ) == 0),
        Dec::Inf { .. } => false,
    }
}

/// Decide whether the decimal is displayed as an integer.
pub fn disp_as_int(d: Dec) -> (r: bool)
    requires
        dec_wf(d),
    ensures
        r == disp_as_int_spec(d),
{
    match d {
        Dec::Zero => true,
        Dec::Fin { m, e, .. } => {
            if e < 0 || e > 13 {
                false
            } else if e == 13 {
                true
            } else {
                let p = pow10_u64((13 - e) as u32);
                proof {
                    lemma_pow10_pos((13 - e) as nat);
                }
                m % p == 0
            }
        },
        Dec::Inf { .. } => false,
    }
}

/// The decimal exponent: `e` for a finite nonzero value, 0 for zero, and
/// the largest `i16` for an infinity.
pub fn exponent(d: Dec) -> (r: i16)
    requires
        dec_wf(d),
    ensures
        r == match d {
            Dec::Zero => 0i16,
            Dec::Fin { e, .. } => e,
            Dec::Inf { .. } => i16::MAX,
        },
{
    match d {
        Dec::Zero => 0,
        Dec::Fin { e, .. } => e,
        Dec::Inf { .. } => i16::MAX,
    }
}

/// The integer part, truncated toward zero.
pub open spec fn trunc_spec(d: Dec) -> Dec {
    match d {
        Dec::Zero => Dec::Zero,
        Dec::Inf { .. } => d,
        Dec::Fin { neg, m, e } => if e >= 13 {
            d
        } else if e < 0 {
            Dec::Zero
        } else {
            norm_spec(neg, (m as int) / pow10((13 - e) as nat), 0, false)
        },
    }
}

/// Truncate toward zero.
pub fn dec_trunc(d: Dec) -> (r: Dec)
    requires
        dec_wf(d),
    ensures
        r == trunc_spec(d),
        dec_wf(r),
{
    proof {
        lemma_pow10_values();
    }
    match d {
        Dec::Zero => Dec::Zero,
        Dec::Inf { .. } => d,
        Dec::Fin { neg, m, e } => {
            if e >= 13 {
                d
            } else if e < 0 {
                Dec::Zero
            } else {
                let p = pow10_u64((13 - e) as u32);
                proof {
                    lemma_pow10_pos((13 - e) as nat);
                    lemma_pow10_mono(0, 34);
                }
                norm(neg, (m / p) as u128, 0, false)
            }
        },
    }
}

/// The fractional part (sign kept); `None` for an infinity.
pub open spec fn fract_spec(d: Dec) -> Option<Dec> {
    match d {
        Dec::Zero => Some(Dec::Zero),
        Dec::Inf { .. } => None,
        Dec::Fin { neg, m, e } => if e >= 13 {
            Some(Dec::Zero)
        } else if e < 0 {
            Some(d)
        } else {
            Some(norm_spec(neg, (m as int) % pow10((13 - e) as nat), e - 13, false))
        },
    }
}

/// The fractional part; an infinity has none.
pub fn dec_fract(d: Dec) -> (r: Option<Dec>)
    requires
        dec_wf(d),
    ensures
        r == fract_spec(d),
        match r {
            Some(x) => dec_wf(x),
            None => true,
        },
{
    proof {
        lemma_pow10_values();
    }
    match d {
        Dec::Zero => Some(Dec::Zero),
        Dec::Inf { .. } => None,
        Dec::Fin { neg, m, e } => {
            if e >= 13 {
                Some(Dec::Zero)
            } else if e < 0 {
                Some(d)
            } else {
                let p = pow10_u64((13 - e) as u32);
                proof {
                    lemma_pow10_pos((13 - e) as nat);
                    lemma_pow10_mono((13 - e) as nat, 14);
                    lemma_pow10_mono(0, 34);
                }
                Some(norm(neg, (m % p) as u128, e as i32 - 13, false))
            }
        },
    }
}

/// Round to the nearest integer, ties away from zero.
pub open spec fn round_spec(d: Dec) -> Dec {
    match d {
        Dec::Zero => Dec::Zero,
        Dec::Inf { .. } => d,
        Dec::Fin { neg, m, e } => if e >= 13 {
            d
        } else if e <= -2 {
            Dec::Zero
        } else if e == -1 {
            if 2 * m >= MANT_LIM {
                norm_spec(neg, 1, 0, false)
            } else {
                Dec::Zero
            }
        } else {
            let p = pow10((13 - e) as nat);
            let ip = (m as int) / p;
            let up: int = if 2 * ((m as int) % p) >= p {
                1
            } else {
                0
            };
            norm_spec(neg, ip + up, 0, false)
        },
    }
}

/// Round to the nearest integer, ties away from zero.
pub fn dec_round(d: Dec) -> (r: Dec)
    requires
        dec_wf(d),
    ensures
        r == round_spec(d),
        dec_wf(r),
{
    proof {
        lemma_pow10_values();
    }
    match d {
        Dec::Zero => Dec::Zero,
        Dec::Inf { .. } => d,
        Dec::Fin { neg, m, e } => {
            if e >= 13 {
                d
            } else if e <= -2 {
                Dec::Zero
            } else if e == -1 {
                if 2 * (m as u128) >= MANT_LIM as u128 {
                    norm(neg, 1, 0, false)
                } else {
                    Dec::Zero
                }
            } else {
                let p = pow10_u64((13 - e) as u32);
                proof {
                    lemma_pow10_pos((13 - e) as nat);
                    lemma_pow10_mono((13 - e) as nat, 14);
                    lemma_pow10_mono(0, 34);
                }
                let ip = m / p;
                let up: u64 = if 2 * ((m % p) as u128) >= p as u128 {
                    1
                } else {
                    0
                };
                norm(neg, (ip + up) as u128, 0, false)
            }
        },
    }
}

/// The decimal nearest to the 64-bit integer `z` (rounded to 14 digits).
pub fn dec_from_i64(z: i64) -> (r: Dec)
    ensures
        r == norm_spec(z < 0, abs_i64(z), 0, false),
        dec_wf(r),
{
    proof {
        lemma_pow10_values();
        if abs_i64(z) >= 1 && n_digits(abs_i64(z)) > 19 {
            lemma_n_digits_bounds(abs_i64(z));
            lemma_pow10_mono(19, (n_digits(abs_i64(z)) - 1) as nat);
        }
        lemma_pow10_mono(19, 34);
    }
    let mag: u128 = if z < 0 {
        (-(z as i128)) as u128
    } else {
        z as u128
    };
    norm(z < 0, mag, 0, false)
}

/// Magnitude of a 64-bit integer as a mathematical integer.
pub open spec fn abs_i64(z: i64) -> int {
    if z < 0 {
        -(z as int)
    } else {
        z as int
    }
}

/// Nearest 64-bit integer (ties away from zero), saturating at the type's
/// bounds; an infinity saturates to the matching bound.
pub open spec fn to_i64_round_spec(d: Dec) -> i64 {
    match d {
        Dec::Zero => 0i64,
        Dec::Inf { neg } => if neg {
            i64::MIN
        } else {
            i64::MAX
        },
        Dec::Fin { neg, m, e } => if e >= 19 {
            if neg {
                i64::MIN
            } else {
                i64::MAX
            }
        } else if e <= -2 {
            0i64
        } else {
            let mag: int = if e == -1 {
                if 2 * m >= MANT_LIM {
                    1
                } else {
                    0
                }
            } else if e >= 13 {
                (m as int) * pow10((e - 13) as nat)
            } else {
                let p = pow10((13 - e) as nat);
                (m as int) / p + if 2 * ((m as int) % p) >= p {
                    1int
                } else {
                    0int
                }
            };
            if neg {
                if mag > 0x8000_0000_0000_0000 {
                    i64::MIN
                } else {
                    (-mag) as i64
                }
            } else {
                if mag > 0x7fff_ffff_ffff_ffff {
                    i64::MAX
                } else {
                    mag as i64
                }
            }
        },
    }
}

/// Round to the nearest 64-bit integer, saturating.
pub fn dec_to_i64_round(d: Dec) -> (r: i64)
    requires
        dec_wf(d),
    ensures
        r == to_i64_round_spec(d),
{
    proof {
        lemma_pow10_values();
    }
    match d {
        Dec::Zero => 0i64,
        Dec::Inf { neg } => if neg {
            i64::MIN
        } else {
            i64::MAX
        },
        Dec::Fin { neg, m, e } => {
            if e >= 19 {
                if neg {
                    i64::MIN
                } else {
                    i64::MAX
                }
            } else if e <= -2 {
                0i64
            } else {
                let mag: u128 = if e == -1 {
                    if 2 * (m as u128) >= MANT_LIM as u128 {
                        1
                    } else {
                        0
                    }
                } else if e >= 13 {
                    let p = pow10_u128((e - 13) as u32);
                    proof {
                        lemma_pow10_pos((e - 13) as nat);
                        lemma_pow10_mono((e - 13) as nat, 6);
                        assert((m as int) * pow10((e - 13) as nat) <= pow10(14) * pow10(6))
                            by (nonlinear_arith)
                            requires
                                0 <= (m as int) <= pow10(14),
                                0 < pow10((e - 13) as nat) <= pow10(6),
                        ;
                        lemma_pow10_adds(14, 6);
                        lemma_pow10_mono(20, 34);
                        assert(pow10(20) == pow10(19) * 10) by {
                            lemma_pow10_adds(19, 1);
                        }
                    }
                    (m as u128) * p
                } else {
                    let p = pow10_u64((13 - e) as u32);
                    proof {
                        lemma_pow10_pos((13 - e) as nat);
                    }
                    (m / p + if 2 * ((m % p) as u128) >= p as u128 {
                        1u64
                    } else {
                        0u64
                    }) as u128
                };
                if neg {
                    if mag > 0x8000_0000_0000_0000u128 {
                        i64::MIN
                    } else {
                        (-(mag as i128)) as i64
                    }
                } else {
                    if mag > 0x7fff_ffff_ffff_ffffu128 {
                        i64::MAX
                    } else {
                        mag as i64
                    }
                }
            }
        },
    }
}

/// The floor of the square root of `x`.
pub open spec fn sqrt_floor(x: int) -> int {
    choose|r: int| 0 <= r && #[trigger] (r * r) <= x && x < (r + 1) * (r + 1)
}

/// The bracketing property determines the rounded-down square root.
pub proof fn lemma_sqrt_floor_unique(x: int, r: int)
    requires
        0 <= r,
        r * r <= x,
        (r + 1) * (r + 1) > x,
    ensures
        sqrt_floor(x) == r,
{
    assert(exists|s: int| 0 <= s && #[trigger] (s * s) <= x && x < (s + 1) * (s + 1)) by {
        assert(0 <= r && (r * r) <= x && x < (r + 1) * (r + 1));
    }
    let s = sqrt_floor(x);
    assert(0 <= s && (s * s) <= x && x < (s + 1) * (s + 1));
    if s < r {
        assert((s + 1) * (s + 1) <= r * r) by (nonlinear_arith)
            requires
                0 <= s,
                s + 1 <= r,
        ;
    }
    if s > r {
        assert((r + 1) * (r + 1) <= s * s) by (nonlinear_arith)
            requires
                0 <= r,
                r + 1 <= s,
        ;
    }
}

/// Rounded-down integer square root, by bisection.
pub fn isqrt(x: u128) -> (r: u128)
    ensures
        r == sqrt_floor(x as int),
        r < 0x1_0000_0000_0000_0000u128,
        (r as int) * (r as int) <= x as int,
        (r as int + 1) * (r as int + 1) > x as int,
{
    let mut lo: u128 = 0;
    let mut hi: u128 = 0xffff_ffff_ffff_ffff;
    proof {
        assert((hi as int + 1) * (hi as int + 1) > x as int) by (nonlinear_arith)
            requires
                hi as int + 1 == 0x1_0000_0000_0000_0000,
                (x as int) < 0x1_0000_0000_0000_0000 * 0x1_0000_0000_0000_0000,
        ;
    }
    while lo < hi
        invariant
            lo <= hi <= 0xffff_ffff_ffff_ffffu128,
            (lo as int) * (lo as int) <= x as int,
            (hi as int + 1) * (hi as int + 1) > x as int,
        decreases hi - lo,
    {
        let mid = lo + (hi - lo + 1) / 2;
        proof {
            assert((mid as int) * (mid as int) <= 0xffff_ffff_ffff_ffff * 0xffff_ffff_ffff_ffff)
                by (nonlinear_arith)
                requires
                    0 <= (mid as int) <= 0xffff_ffff_ffff_ffff,
            ;
        }
        if mid * mid <= x {
            lo = mid;
        } else {
            hi = mid - 1;
        }
    }
    proof {
        lemma_sqrt_floor_unique(x as int, lo as int);
    }
    lo
}

} // verus!
