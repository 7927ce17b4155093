//! Complex arithmetic over pairs of decimal reals, and the modulus.
//! Each component operation rounds to 14 digits, so a complex operation is
//! the componentwise composition of rounded decimal operations; `None` is
//! the undefined case (an undefined component, such as opposite infinities).

use crate::dec::{
    add_spec, dec_add, dec_mul, dec_neg, dec_sub, dec_wf, dec_div, div_spec, isqrt, mul_spec,
    neg_spec, norm, norm_spec, pow10, pow10_u128, sqrt_floor, Dec, MANT_LIM,
};
use vstd::prelude::*;

verus! {

/// Componentwise sum.
pub open spec fn c_add_spec(a: (Dec, Dec), b: (Dec, Dec)) -> Option<(Dec, Dec)> {
    match (add_spec(a.0, b.0), add_spec(a.1, b.1)) {
        (Some(re), Some(im)) => Some((re, im)),
        _ => None,
    }
}

/// Componentwise difference.
pub open spec fn c_sub_spec(a: (Dec, Dec), b: (Dec, Dec)) -> Option<(Dec, Dec)> {
    match (add_spec(a.0, neg_spec(b.0)), add_spec(a.1, neg_spec(b.1))) {
        (Some(re), Some(im)) => Some((re, im)),
        _ => None,
    }
}

/// Product: `(ac - bd, ad + bc)`, each step rounded.
pub open spec fn c_mul_spec(a: (Dec, Dec), b: (Dec, Dec)) -> Option<(Dec, Dec)> {
    match (mul_spec(a.0, b.0), mul_spec(a.1, b.1), mul_spec(a.0, b.1), mul_spec(a.1, b.0)) {
        (Some(ac), Some(bd), Some(ad), Some(bc)) => {
            match (add_spec(ac, neg_spec(bd)), add_spec(ad, bc)) {
                (Some(re), Some(im)) => Some((re, im)),
                _ => None,
            }
        },
        _ => None,
    }
}

/// Quotient: `((ac + bd) / n, (bc - ad) / n)` with `n = c^2 + d^2`, each
/// step rounded.
pub open spec fn c_div_spec(a: (Dec, Dec), b: (Dec, Dec)) -> Option<(Dec, Dec)> {
    match (mul_spec(b.0, b.0), mul_spec(b.1, b.1)) {
        (Some(c2), Some(d2)) => {
            match add_spec(c2, d2) {
                Some(n) => {
                    match (
                        mul_spec(a.0, b.0),
                        mul_spec(a.1, b.1),
                        mul_spec(a.1, b.0),
                        mul_spec(a.0, b.1),
                    ) {
                        (Some(ac), Some(bd), Some(bc), Some(ad)) => {
                            match (add_spec(ac, bd), add_spec(bc, neg_spec(ad))) {
                                (Some(ren), Some(imn)) => {
                                    match (div_spec(ren, n), div_spec(imn, n)) {
                                        (Some(re), Some(im)) => Some((re, im)),
                                        _ => None,
                                    }
                                },
                                _ => None,
                            }
                        },
                        _ => None,
                    }
                },
                None => None,
            }
        },
        _ => None,
    }
}

pub open spec fn c_wf(a: (Dec, Dec)) -> bool {
    dec_wf(a.0) && dec_wf(a.1)
}

/// Add two complex values.
pub fn c_add(a: (Dec, Dec), b: (Dec, Dec)) -> (r: Option<(Dec, Dec)>)
    requires
        c_wf(a),
        c_wf(b),
    ensures
        r == c_add_spec(a, b),
        match r {
            Some(c) => c_wf(c),
            None => true,
        },
{
    match (dec_add(a.0, b.0), dec_add(a.1, b.1)) {
        (Some(re), Some(im)) => Some((re, im)),
        _ => None,
    }
}

/// Subtract two complex values.
pub fn c_sub(a: (Dec, Dec), b: (Dec, Dec)) -> (r: Option<(Dec, Dec)>)
    requires
        c_wf(a),
        c_wf(b),
    ensures
        r == c_sub_spec(a, b),
        match r {
            Some(c) => c_wf(c),
            None => true,
        },
{
    match (dec_sub(a.0, b.0), dec_sub(a.1, b.1)) {
        (Some(re), Some(im)) => Some((re, im)),
        _ => None,
    }
}

/// Multiply two complex values.
pub fn c_mul(a: (Dec, Dec), b: (Dec, Dec)) -> (r: Option<(Dec, Dec)>)
    requires
        c_wf(a),
        c_wf(b),
    ensures
        r == c_mul_spec(a, b),
        match r {
            Some(c) => c_wf(c),
            None => true,
        },
{
    match (dec_mul(a.0, b.0), dec_mul(a.1, b.1), dec_mul(a.0, b.1), dec_mul(a.1, b.0)) {
        (Some(ac), Some(bd), Some(ad), Some(bc)) => {
            match (dec_sub(ac, bd), dec_add(ad, bc)) {
                (Some(re), Some(im)) => Some((re, im)),
                _ => None,
            }
        },
        _ => None,
    }
}

/// Divide two complex values.
pub fn c_div(a: (Dec, Dec), b: (Dec, Dec)) -> (r: Option<(Dec, Dec)>)
    requires
        c_wf(a),
        c_wf(b),
    ensures
        r == c_div_spec(a, b),
        match r {
            Some(c) => c_wf(c),
            None => true,
        },
{
    match (dec_mul(b.0, b.0), dec_mul(b.1, b.1)) {
        (Some(c2), Some(d2)) => {
            match dec_add(c2, d2) {
                Some(n) => {
                    match (
                        dec_mul(a.0, b.0),
                        dec_mul(a.1, b.1),
                        dec_mul(a.1, b.0),
                        dec_mul(a.0, b.1),
                    ) {
                        (Some(ac), Some(bd), Some(bc), Some(ad)) => {
                            match (dec_add(ac, bd), dec_sub(bc, ad)) {
                                (Some(ren), Some(imn)) => {
                                    match (dec_div(ren, n), dec_div(imn, n)) {
                                        (Some(re), Some(im)) => Some((re, im)),
                                        _ => None,
                                    }
                                },
                                _ => None,
                            }
                        },
                        _ => None,
                    }
                },
                None => None,
            }
        },
        _ => None,
    }
}

/// The modulus `sqrt(a^2 + b^2)`: square at a common scale (the smaller
/// component scaled down with a sticky bit; a component more than eight
/// orders of magnitude below the other leaves the larger one's magnitude),
/// then the rounded-down square root with two guard digits, normalized.
pub open spec fn hypot_spec(a: Dec, b: Dec) -> Dec {
    match (a, b) {
        (Dec::Inf { .. }, _) => Dec::Inf { neg: false },
        (_, Dec::Inf { .. }) => Dec::Inf { neg: false },
        (Dec::Zero, Dec::Zero) => Dec::Zero,
        (Dec::Fin { m, e, .. }, Dec::Zero) => Dec::Fin { neg: false, m, e },
        (Dec::Zero, Dec::Fin { m, e, .. }) => Dec::Fin { neg: false, m, e },
        (Dec::Fin { m: am, e: ae, .. }, Dec::Fin { m: bm, e: be, .. }) => {
            let (hm, he, lm, le) = if ae >= be {
                (am as int, ae as int, bm as int, be as int)
            } else {
                (bm as int, be as int, am as int, ae as int)
            };
            if he - le >= 9 {
                Dec::Fin { neg: false, m: hm as u64, e: he as i16 }
            } else {
                let p = pow10((2 * (he - le)) as nat);
                let sq2 = lm * lm;
                let s = hm * hm + sq2 / p;
                let x = s * 100;
                let root = sqrt_floor(x);
                norm_spec(false, root, le + (he - le) - 14, sq2 % p != 0 || root * root != x)
            }
        },
    }
}

/// The modulus of a complex value.
pub fn hypot(a: Dec, b: Dec) -> (r: Dec)
    requires
        dec_wf(a),
        dec_wf(b),
    ensures
        r == hypot_spec(a, b),
        dec_wf(r),
{
    proof {
        crate::dec::lemma_pow10_values();
    }
    match (a, b) {
        (Dec::Inf { .. }, _) => Dec::Inf { neg: false },
        (_, Dec::Inf { .. }) => Dec::Inf { neg: false },
        (Dec::Zero, Dec::Zero) => Dec::Zero,
        (Dec::Fin { m, e, .. }, Dec::Zero) => Dec::Fin { neg: false, m, e },
        (Dec::Zero, Dec::Fin { m, e, .. }) => Dec::Fin { neg: false, m, e },
        (Dec::Fin { m: am, e: ae, .. }, Dec::Fin { m: bm, e: be, .. }) => {
            let (hm, he, lm, le): (u64, i16, u64, i16) = if ae >= be {
                (am, ae, bm, be)
            } else {
                (bm, be, am, ae)
            };
            if he as i32 - le as i32 >= 9 {
                Dec::Fin { neg: false, m: hm, e: he }
            } else {
                let diff = (he as i32 - le as i32) as u32;
                let p = pow10_u128(2 * diff);
                proof {
                    crate::dec::lemma_pow10_pos((2 * diff) as nat);
                    assert((hm as int) * (hm as int) < pow10(14) * pow10(14) && (lm as int) * (
                    lm as int) < pow10(14) * pow10(14) && (hm as int) * (hm as int) >= pow10(13)
                        * pow10(13)) by (nonlinear_arith)
                        requires
                            pow10(13) <= (hm as int) < pow10(14),
                            0 <= (lm as int) < pow10(14),
                    ;
                    crate::dec::lemma_pow10_adds(14, 14);
                    crate::dec::lemma_pow10_adds(13, 13);
                    crate::dec::lemma_pow10_adds(28, 2);
                    crate::dec::lemma_pow10_adds(26, 2);
                    crate::dec::lemma_pow10_adds(28, 6);
                    crate::dec::lemma_pow10_adds(16, 16);
                    crate::dec::lemma_pow10_adds(30, 2);
                    crate::dec::lemma_pow10_mono(30, 32);
                    crate::dec::lemma_pow10_mono(30, 34);
                }
                let sq2 = (lm as u128) * (lm as u128);
                let s = (hm as u128) * (hm as u128) + sq2 / p;
                let x = s * 100;
                let root = isqrt(x);
                let st1 = sq2 % p != 0;
                proof {
                    assert((root as int) >= pow10(14) && (root as int) < pow10(16))
                        by (nonlinear_arith)
                        requires
                            (root as int + 1) * (root as int + 1) > x as int,
                            (root as int) * (root as int) <= x as int,
                            x as int >= pow10(26) * 100,
                            pow10(26) * 100 == pow10(14) * pow10(14),
                            (x as int) < pow10(16) * pow10(16),
                            root as int >= 0,
                            pow10(14) > 0,
                            pow10(16) > 0,
                    ;
                    crate::dec::lemma_pow10_mono(16, 34);
                    assert((root as int) * (root as int) <= 0xffff_ffff_ffff_ffff
                        * 0xffff_ffff_ffff_ffff) by (nonlinear_arith)
                        requires
                            0 <= (root as int) <= 0xffff_ffff_ffff_ffff,
                    ;
                }
                norm(false, root, le as i32 + diff as i32 - 14, st1 || root * root != x)
            }
        },
    }
}

} // verus!
