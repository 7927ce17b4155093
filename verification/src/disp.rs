//! The mode-dependent display formatter.
//!
//! Modes: `Std` (adaptive: integers bare; reals fixed-notation inside the
//! normal window, else scientific, both width-bounded), `Raw` (the canonical
//! leading-point scientific form), `Fix(p)` / `Sci(p)` (fixed places or
//! scientific mantissa digits, `Fix` falling back to scientific when too
//! wide), `HexUpper` / `HexLower` (integers in radix 16; other values route
//! through `Std`).  Infinities show as `+oo` / `-oo` in every mode.

use crate::dec::{
    dec_wf, disp_as_int, disp_as_int_spec, n_digits, pow10, pow10_u64, to_i64_round_spec, Dec,
};
use crate::native::{dec_to_i64_exact, Native};
use crate::text::{all_ascii, chars_of, digits_of, hex_digits_of, int_text, push_i64_text, push_u64_digits, push_u64_hex};
use vstd::prelude::*;

verus! {

/// The display mode.
#[derive(Clone, Copy, Debug, PartialEq, Eq, Structural)]
pub enum NumDisplay {
    /// Adaptive: bare integers, fixed or scientific reals.
    Std,
    /// The canonical leading-point scientific form.
    Raw,
    /// Fixed decimal places.
    Fix(u8),
    /// Scientific with the given mantissa precision.
    Sci(u8),
    /// Hexadecimal, upper case.
    HexU,
    /// Hexadecimal, lower case.
    HexL,
}

impl Default for NumDisplay {
    fn default() -> (r: NumDisplay)
        ensures
            r == NumDisplay::Std,
    {
        NumDisplay::Std
    }
}

/// The unsigned 64-bit reading of an integer's two's-complement bits.
pub open spec fn i64_bits(z: i64) -> int {
    if z < 0 {
        z + 0x1_0000_0000_0000_0000
    } else {
        z as int
    }
}

/// An integer's display: decimal in every mode but the hexadecimal ones,
/// which show the two's-complement bits in radix 16.
pub open spec fn disp_z_spec(z: i64, disp: NumDisplay) -> Seq<u8> {
    match disp {
        NumDisplay::HexU => hex_digits_of(i64_bits(z), true),
        NumDisplay::HexL => hex_digits_of(i64_bits(z), false),
        _ => int_text(z as int),
    }
}

pub proof fn lemma_int_text_all_ascii(z: int)
    ensures
        all_ascii(int_text(z)),
{
    if z < 0 {
        crate::repr::lemma_digits_of_ascii(-z);
    } else {
        crate::repr::lemma_digits_of_ascii(z);
    }
}

pub proof fn lemma_hex_all_ascii(m: int, upper: bool)
    requires
        m >= 0,
    ensures
        all_ascii(hex_digits_of(m, upper)),
    decreases m,
{
    if m >= 16 {
        lemma_hex_all_ascii(m / 16, upper);
        assert forall|i: int| 0 <= i < hex_digits_of(m, upper).len() implies hex_digits_of(
            m,
            upper,
        )[i] < 128 by {
            if i < hex_digits_of(m, upper).len() - 1 {
                assert(hex_digits_of(m, upper)[i] == hex_digits_of(m / 16, upper)[i]);
            }
        }
    }
}

/// The two's-complement bits of an integer.
pub fn i64_to_bits(z: i64) -> (r: u64)
    ensures
        r as int == i64_bits(z),
{
    if z >= 0 {
        z as u64
    } else {
        (0xffff_ffff_ffff_ffffu64 - ((-(z as i128)) as u64)) + 1
    }
}

/// Display an integer.
pub fn disp_z(z: i64, disp: NumDisplay) -> (r: String)
    ensures
        r@ == chars_of(disp_z_spec(z, disp)),
{
    let mut out: Vec<u8> = Vec::new();
    match disp {
        NumDisplay::HexU => {
            let bits = i64_to_bits(z);
            proof {
                lemma_hex_all_ascii(i64_bits(z), true);
            }
            push_u64_hex(&mut out, bits, true);
        },
        NumDisplay::HexL => {
            let bits = i64_to_bits(z);
            proof {
                lemma_hex_all_ascii(i64_bits(z), false);
            }
            push_u64_hex(&mut out, bits, false);
        },
        _ => {
            proof {
                lemma_int_text_all_ascii(z as int);
            }
            push_i64_text(&mut out, z);
        },
    }
    crate::text::ascii_string(&out)
}

/// A quotient's display: `numerator/denominator` in every mode.
pub open spec fn disp_q_spec(n: i64, d: i64) -> Seq<u8> {
    int_text(n as int) + seq![47u8] + digits_of(d as int)
}

/// Display a quotient.
pub fn disp_q(n: i64, d: i64, disp: NumDisplay) -> (r: String)
    requires
        d > 0,
    ensures
        r@ == chars_of(disp_q_spec(n, d)),
{
    let mut out: Vec<u8> = Vec::new();
    push_i64_text(&mut out, n);
    out.push(47);
    push_u64_digits(&mut out, d as u64);
    proof {
        lemma_int_text_all_ascii(n as int);
        crate::repr::lemma_digits_of_ascii(d as int);
        assert(out@ =~= disp_q_spec(n, d));
        assert forall|i: int| 0 <= i < out@.len() implies out@[i] < 128 by {
            let a = int_text(n as int);
            if i < a.len() {
                assert(out@[i] == a[i]);
            } else if i > a.len() {
                assert(out@[i] == digits_of(d as int)[i - a.len() - 1]);
            }
        }
    }
    crate::text::ascii_string(&out)
}

/// Round `x` to the nearest multiple of `p` units (ties to even), in units
/// of `p`.
pub open spec fn rhe(x: int, p: int) -> int
    recommends
        p >= 1,
{
    let hi = x / p;
    let lo = x % p;
    let half = p / 2;
    if lo > half || (lo == half && hi % 2 == 1) {
        hi + 1
    } else {
        hi
    }
}

/// Zero-padded digits of `x` to exactly `w` places.
pub open spec fn pad0(x: int, w: nat) -> Seq<u8>
    decreases w,
{
    if w == 0 {
        Seq::<u8>::empty()
    } else {
        pad0(x / 10, (w - 1) as nat).push((48 + x % 10) as u8)
    }
}

pub proof fn lemma_pad0_ascii(x: int, w: nat)
    requires
        x >= 0,
    ensures
        all_ascii(pad0(x, w)),
        pad0(x, w).len() == w,
    decreases w,
{
    if w > 0 {
        lemma_pad0_ascii(x / 10, (w - 1) as nat);
        assert forall|i: int| 0 <= i < pad0(x, w).len() implies pad0(x, w)[i] < 128 by {
            if i < pad0(x, w).len() - 1 {
                assert(pad0(x, w)[i] == pad0(x / 10, (w - 1) as nat)[i]);
            }
        }
    }
}

/// Append the zero-padded digits of `x` to exactly `w` places.
pub fn push_pad0(out: &mut Vec<u8>, x: u64, w: u32)
    ensures
        final (out)@ == old(out)@ + pad0(x as int, w as nat),
        all_ascii(old(out)@) ==> all_ascii(final (out)@),
    decreases w,
{
    proof {
        if all_ascii(out@) {
            lemma_pad0_ascii(x as int, w as nat);
            crate::text::lemma_ascii_append(out@, pad0(x as int, w as nat));
        }
    }
    if w == 0 {
        proof {
            assert(final (out)@ =~= old(out)@ + pad0(x as int, 0));
        }
    } else {
        push_pad0(out, x / 10, w - 1);
        out.push(48 + ((x % 10) as u8));
        proof {
            assert(final (out)@ =~= old(out)@ + pad0(x as int, w as nat));
        }
    }
}

/// The scientific mantissa and exponent at `prec` digits after the point:
/// the 14-digit mantissa rounded (ties to even) to `prec + 1` significant
/// digits, carrying into the exponent when it overflows.
pub open spec fn sci_parts(m: u64, e: i16, prec: u8) -> (int, int) {
    if prec >= 13 {
        (m * pow10((prec - 13) as nat), e as int)
    } else {
        let p = pow10((13 - prec) as nat);
        let r = rhe(m as int, p);
        if r == pow10((prec + 1) as nat) {
            (pow10(prec as nat), e + 1)
        } else {
            (r, e as int)
        }
    }
}

/// The scientific display at `prec` digits after the point, with the
/// exponent clamp: a result reaching exponent 300 shows as an infinity, one
/// reaching -300 as zero.
pub open spec fn disp_sci_spec(d: Dec, prec: u8) -> Seq<u8> {
    match d {
        Dec::Zero => seq![48u8],
        Dec::Inf { neg } => inf_text(neg),
        Dec::Fin { neg, m, e } => {
            let parts = sci_parts(m, e, prec);
            if parts.1 >= 300 {
                inf_text(neg)
            } else if parts.1 <= -300 {
                seq![48u8]
            } else {
                sci_text(neg, parts.0, parts.1, prec)
            }
        },
    }
}

/// `+oo` or `-oo`.
pub open spec fn inf_text(neg: bool) -> Seq<u8> {
    if neg {
        seq![45u8, 111u8, 111u8]
    } else {
        seq![43u8, 111u8, 111u8]
    }
}

/// The scientific mantissa text: sign, leading digit, point and `prec`
/// padded digits.
pub open spec fn sci_mant(neg: bool, sm: int, prec: u8) -> Seq<u8> {
    let pp = pow10(prec as nat);
    let sign: Seq<u8> = if neg {
        seq![45u8]
    } else {
        Seq::<u8>::empty()
    };
    let head = sign + seq![(48 + sm / pp) as u8];
    if prec == 0 {
        head
    } else {
        head + seq![46u8] + pad0(sm % pp, prec as nat)
    }
}

/// `d.ddd..de<exp>`: leading digit, point and `prec` padded digits, `e`,
/// the exponent.
pub open spec fn sci_text(neg: bool, sm: int, se: int, prec: u8) -> Seq<u8> {
    sci_mant(neg, sm, prec) + seq![101u8] + int_text(se)
}

/// Push the infinity text.
pub fn push_inf(out: &mut Vec<u8>, neg: bool)
    ensures
        final (out)@ == old(out)@ + inf_text(neg),
        all_ascii(old(out)@) ==> all_ascii(final (out)@),
{
    proof {
        if all_ascii(out@) {
            crate::text::lemma_ascii_append(out@, inf_text(neg));
        }
    }
    if neg {
        out.push(45);
    } else {
        out.push(43);
    }
    out.push(111);
    out.push(111);
    proof {
        assert(final (out)@ =~= old(out)@ + inf_text(neg));
    }
}

/// Append the scientific text of a finite nonzero decimal, already clamped.
fn push_sci_text(out: &mut Vec<u8>, neg: bool, sm: u64, se: i32, prec: u8)
    requires
        prec <= 12,
        sm < pow10((prec + 1) as nat),
        -400 <= se <= 400,
    ensures
        final (out)@ == old(out)@ + sci_text(neg, sm as int, se as int, prec),
        all_ascii(old(out)@) ==> all_ascii(final (out)@),
{
    proof {
        crate::dec::lemma_pow10_values();
        crate::dec::lemma_pow10_mono((prec + 1) as nat, 14);
        crate::dec::lemma_pow10_pos(prec as nat);
        crate::dec::lemma_pow10_adds(1, prec as nat);
        assert((sm as int) / pow10(prec as nat) < 10) by (nonlinear_arith)
            requires
                pow10(prec as nat) >= 1,
                (sm as int) < 10 * pow10(prec as nat),
                sm >= 0,
        ;
    }
    if neg {
        out.push(45);
    }
    let pp = pow10_u64(prec as u32);
    out.push(48 + ((sm / pp) as u8));
    if prec > 0 {
        out.push(46);
        push_pad0(out, sm % pp, prec as u32);
    }
    out.push(101);
    push_i64_text(out, se as i64);
    proof {
        assert(final (out)@ =~= old(out)@ + sci_text(neg, sm as int, se as int, prec));
    }
}

/// Display in scientific notation with the exponent clamp.
pub fn disp_sci(d: Dec, prec: u8) -> (r: Vec<u8>)
    requires
        dec_wf(d),
        prec <= 12,
    ensures
        r@ == disp_sci_spec(d, prec),
        all_ascii(r@),
{
    proof {
        crate::dec::lemma_pow10_values();
    }
    let mut out: Vec<u8> = Vec::new();
    match d {
        Dec::Zero => {
            out.push(48);
            proof {
                assert(out@ =~= disp_sci_spec(d, prec));
            }
        },
        Dec::Inf { neg } => {
            push_inf(&mut out, neg);
        },
        Dec::Fin { neg, m, e } => {
            let p = pow10_u64((13 - prec) as u32);
            proof {
                crate::dec::lemma_pow10_pos((13 - prec) as nat);
            }
            let hi = m / p;
            let lo = m % p;
            let half = p / 2;
            let up: u64 = if lo > half || (lo == half && hi % 2 == 1) {
                1
            } else {
                0
            };
            let r0 = hi + up;
            proof {
                crate::dec::lemma_pow10_adds((prec + 1) as nat, (13 - prec) as nat);
                assert((m as int) / (p as int) < pow10((prec + 1) as nat)) by (nonlinear_arith)
                    requires
                        p as int >= 1,
                        (m as int) < pow10((prec + 1) as nat) * (p as int),
                ;
                crate::dec::lemma_pow10_mono((prec + 1) as nat, 14);
            }
            proof {
                crate::dec::lemma_pow10_mono((prec + 1) as nat, 13);
                crate::dec::lemma_pow10_pos(prec as nat);
                crate::dec::lemma_pow10_adds(1, prec as nat);
            }
            let (sm, se): (u64, i32) = if r0 == pow10_u64((prec + 1) as u32) {
                (pow10_u64(prec as u32), e as i32 + 1)
            } else {
                (r0, e as i32)
            };
            if se >= 300 {
                push_inf(&mut out, neg);
            } else if se <= -300 {
                out.push(48);
                proof {
                    assert(out@ =~= disp_sci_spec(d, prec));
                }
            } else {
                proof {
                    crate::dec::lemma_pow10_mono(prec as nat, 13);
                }
                push_sci_text(&mut out, neg, sm, se, prec);
            }
        },
    }
    out
}

} // verus!

verus! {

/// Fixed-notation text: sign, integer digits, and `prec` padded decimals.
pub open spec fn fix_text(neg: bool, scaled: int, prec: u8) -> Seq<u8> {
    let sign: Seq<u8> = if neg {
        seq![45u8]
    } else {
        Seq::<u8>::empty()
    };
    let pp = pow10(prec as nat);
    if prec == 0 {
        sign + digits_of(scaled)
    } else {
        sign + digits_of(scaled / pp) + seq![46u8] + pad0(scaled % pp, prec as nat)
    }
}

/// The fixed-mode value in units of `10^-prec`, ties to even; a scale too
/// fine to reach the mantissa rounds to zero.
pub open spec fn fix_scaled(m: u64, e: i16, prec: u8) -> int {
    if 13 - e - prec >= 0 {
        rhe(m as int, pow10((13 - e - prec) as nat))
    } else {
        m * pow10((e + prec - 13) as nat)
    }
}

/// The fixed display: falls back to scientific when the text runs past 12
/// characters beside its sign and point.
pub open spec fn disp_fix_spec(d: Dec, prec: u8) -> Seq<u8> {
    match d {
        Dec::Zero => seq![48u8],
        Dec::Inf { neg } => inf_text(neg),
        Dec::Fin { neg, m, e } => {
            if e + prec > 13 {
                disp_sci_spec(d, prec)
            } else {
                let s = fix_text(neg, fix_scaled(m, e, prec), prec);
                let max = 12 + (if prec > 0 {
                    1int
                } else {
                    0int
                }) + (if neg {
                    1int
                } else {
                    0int
                });
                if s.len() > max {
                    disp_sci_spec(d, prec)
                } else {
                    s
                }
            }
        },
    }
}

/// Append fixed-notation text.
fn push_fix_text(out: &mut Vec<u8>, neg: bool, scaled: u128, prec: u8)
    requires
        prec <= 12,
        scaled < pow10(27),
    ensures
        final (out)@ == old(out)@ + fix_text(neg, scaled as int, prec),
        all_ascii(old(out)@) ==> all_ascii(final (out)@),
{
    proof {
        crate::dec::lemma_pow10_values();
        crate::dec::lemma_pow10_pos(prec as nat);
        crate::dec::lemma_pow10_mono(prec as nat, 12);
        assert(pow10(12) < pow10(27)) by {
            crate::dec::lemma_pow10_mono(13, 27);
            crate::dec::lemma_pow10_mono(12, 13);
        }
    }
    if neg {
        out.push(45);
    }
    if prec == 0 {
        crate::text::push_u128_digits(out, scaled);
    } else {
        let pp = pow10_u64(prec as u32);
        crate::text::push_u128_digits(out, scaled / (pp as u128));
        out.push(46);
        push_pad0(out, (scaled % (pp as u128)) as u64, prec as u32);
    }
    proof {
        assert(final (out)@ =~= old(out)@ + fix_text(neg, scaled as int, prec));
    }
}

/// Display in fixed notation with the width fallback.
pub fn disp_fix(d: Dec, prec: u8) -> (r: Vec<u8>)
    requires
        dec_wf(d),
        prec <= 12,
    ensures
        r@ == disp_fix_spec(d, prec),
        all_ascii(r@),
{
    proof {
        crate::dec::lemma_pow10_values();
    }
    match d {
        Dec::Zero => {
            let mut out: Vec<u8> = Vec::new();
            out.push(48);
            proof {
                assert(out@ =~= disp_fix_spec(d, prec));
            }
            out
        },
        Dec::Inf { neg } => {
            let mut out: Vec<u8> = Vec::new();
            push_inf(&mut out, neg);
            proof {
                assert(out@ =~= disp_fix_spec(d, prec));
            }
            out
        },
        Dec::Fin { neg, m, e } => {
            if e as i32 + prec as i32 > 13 {
                disp_sci(d, prec)
            } else {
                let k = 13 - e as i32 - prec as i32;
                let scaled: u128 = if k > 14 {
                    proof {
                        crate::dec::lemma_pow10_pos((k) as nat);
                        crate::dec::lemma_pow10_mono(15, (k) as nat);
                        let pk = pow10((k) as nat);
                        assert((m as int) / pk == 0 && (m as int) % pk == m as int)
                            by (nonlinear_arith)
                            requires
                                0 <= (m as int) < pk,
                                pk >= 1,
                        ;
                        assert(pk / 2 >= pow10(15) / 2) by (nonlinear_arith)
                            requires
                                pk >= pow10(15),
                                pow10(15) >= 2,
                        ;
                        assert(rhe(m as int, pk) == 0);
                    }
                    0
                } else {
                    let p = pow10_u64(k as u32);
                    proof {
                        crate::dec::lemma_pow10_pos((k) as nat);
                    }
                    let hi = m / p;
                    let lo = m % p;
                    let half = p / 2;
                    (if lo > half || (lo == half && hi % 2 == 1) {
                        hi + 1
                    } else {
                        hi
                    }) as u128
                };
                proof {
                    crate::dec::lemma_pow10_mono(14, 27);
                    crate::dec::lemma_pow10_mono(15, 27);
                }
                let mut out: Vec<u8> = Vec::new();
                push_fix_text(&mut out, neg, scaled, prec);
                let max: usize = 12 + (if prec > 0 {
                    1
                } else {
                    0
                }) + (if neg {
                    1
                } else {
                    0
                });
                if out.len() > max {
                    disp_sci(d, prec)
                } else {
                    out
                }
            }
        },
    }
}

/// The text with trailing zeros, then a trailing point, removed.
pub open spec fn trim_num(s: Seq<u8>) -> Seq<u8>
    decreases s.len(),
{
    if s.len() > 0 && s.last() == 48 {
        trim_num(s.drop_last())
    } else if s.len() > 0 && s.last() == 46 {
        s.drop_last()
    } else {
        s
    }
}

/// Remove trailing zeros, then a trailing point.
fn trim_number(out: &mut Vec<u8>)
    ensures
        final (out)@ == trim_num(old(out)@),
        all_ascii(old(out)@) ==> all_ascii(final (out)@),
{
    loop
        invariant
            trim_num(out@) == trim_num(old(out)@),
            all_ascii(old(out)@) ==> all_ascii(out@),
        decreases out@.len(),
    {
        let n = out.len();
        if n > 0 && out[n - 1] == 48 {
            out.pop();
            proof {
                assert(out@ =~= old(out)@.drop_last() || true);
            }
        } else if n > 0 && out[n - 1] == 46 {
            out.pop();
            return ;
        } else {
            return ;
        }
    }
}

/// One try of the adaptive fixed rendering at a precision: format and trim.
pub open spec fn std_fixed_text(neg: bool, m: u64, e: i16, prec: u8) -> Seq<u8> {
    trim_num(fix_text(neg, fix_scaled(m, e, prec), prec))
}

/// The adaptive fixed rendering: retry at reduced precision while the text
/// runs past 17 characters.
pub open spec fn std_fixed_rec(neg: bool, m: u64, e: i16, prec: u8) -> Seq<u8>
    decreases prec,
{
    let s = std_fixed_text(neg, m, e, prec);
    if s.len() > 17 && prec > 0 {
        let over = s.len() - 17;
        let next: u8 = if over >= prec {
            0
        } else {
            (prec - over) as u8
        };
        std_fixed_rec(neg, m, e, next)
    } else {
        s
    }
}

/// One try of the adaptive scientific rendering: mantissa trimmed, then the
/// exponent (no clamp: the adaptive mode shows what it was given).
pub open spec fn std_sci_text(neg: bool, m: u64, e: i16, prec: u8) -> Seq<u8> {
    let parts = sci_parts(m, e, prec);
    trim_num(sci_mant(neg, parts.0, prec)) + seq![101u8] + int_text(parts.1)
}

/// The adaptive scientific rendering with the same retry rule.
pub open spec fn std_sci_rec(neg: bool, m: u64, e: i16, prec: u8) -> Seq<u8>
    decreases prec,
{
    let s = std_sci_text(neg, m, e, prec);
    if s.len() > 17 && prec > 0 {
        let over = s.len() - 17;
        let next: u8 = if over >= prec {
            0
        } else {
            (prec - over) as u8
        };
        std_sci_rec(neg, m, e, next)
    } else {
        s
    }
}

/// The adaptive display: fixed notation for magnitudes in the normal window
/// (decimal exponent in `[-6, 12]`), else scientific; both at 12 digits,
/// reduced until the text fits 17 characters.
pub open spec fn disp_std_spec(d: Dec) -> Seq<u8> {
    match d {
        Dec::Zero => seq![48u8],
        Dec::Inf { neg } => inf_text(neg),
        Dec::Fin { neg, m, e } => if -6 <= e <= 12 {
            std_fixed_rec(neg, m, e, 12)
        } else {
            std_sci_rec(neg, m, e, 12)
        },
    }
}

fn std_fixed_step(neg: bool, m: u64, e: i16, prec: u8) -> (r: Vec<u8>)
    requires
        crate::dec::MANT_MIN <= m < crate::dec::MANT_LIM,
        -6 <= e <= 12,
        prec <= 12,
    ensures
        r@ == std_fixed_rec(neg, m, e, prec),
        all_ascii(r@),
    decreases prec,
{
    proof {
        crate::dec::lemma_pow10_values();
        crate::dec::lemma_pow10_mono(14, 27);
    }
    let scaled: u128 = if 13 - e as i32 - prec as i32 >= 0 {
        let p = pow10_u64((13 - e as i32 - prec as i32) as u32);
        proof {
            crate::dec::lemma_pow10_pos((13 - e - prec) as nat);
        }
        let hi = m / p;
        let lo = m % p;
        let half = p / 2;
        (if lo > half || (lo == half && hi % 2 == 1) {
            hi + 1
        } else {
            hi
        }) as u128
    } else {
        let p = pow10_u64((e as i32 + prec as i32 - 13) as u32);
        proof {
            crate::dec::lemma_pow10_pos((e + prec - 13) as nat);
            crate::dec::lemma_pow10_mono((e + prec - 13) as nat, 11);
            assert((m as int) * pow10((e + prec - 13) as nat) < pow10(14) * pow10(11))
                by (nonlinear_arith)
                requires
                    0 <= (m as int) < pow10(14),
                    0 < pow10((e + prec - 13) as nat) <= pow10(11),
            ;
            crate::dec::lemma_pow10_adds(14, 11);
            crate::dec::lemma_pow10_mono(25, 27);
        }
        (m as u128) * (p as u128)
    };
    let mut out: Vec<u8> = Vec::new();
    push_fix_text(&mut out, neg, scaled, prec);
    trim_number(&mut out);
    if out.len() > 17 && prec > 0 {
        let over = out.len() - 17;
        let next: u8 = if over >= prec as usize {
            0
        } else {
            prec - (over as u8)
        };
        std_fixed_step(neg, m, e, next)
    } else {
        out
    }
}

fn std_sci_step(neg: bool, m: u64, e: i16, prec: u8) -> (r: Vec<u8>)
    requires
        crate::dec::MANT_MIN <= m < crate::dec::MANT_LIM,
        -299 <= e <= 299,
        prec <= 12,
    ensures
        r@ == std_sci_rec(neg, m, e, prec),
        all_ascii(r@),
    decreases prec,
{
    proof {
        crate::dec::lemma_pow10_values();
        crate::dec::lemma_pow10_pos(prec as nat);
        crate::dec::lemma_pow10_pos((13 - prec) as nat);
        crate::dec::lemma_pow10_adds((prec + 1) as nat, (13 - prec) as nat);
        crate::dec::lemma_pow10_adds(1, prec as nat);
    }
    let p = pow10_u64((13 - prec as i32) as u32);
    let hi = m / p;
    let lo = m % p;
    let half = p / 2;
    let up: u64 = if lo > half || (lo == half && hi % 2 == 1) {
        1
    } else {
        0
    };
    let r0 = hi + up;
    proof {
        assert((m as int) / (p as int) < pow10((prec + 1) as nat)) by (nonlinear_arith)
            requires
                p as int >= 1,
                (m as int) < pow10((prec + 1) as nat) * (p as int),
        ;
        crate::dec::lemma_pow10_mono((prec + 1) as nat, 13);
    }
    let (sm, se): (u64, i32) = if r0 == pow10_u64((prec + 1) as u32) {
        (pow10_u64(prec as u32), e as i32 + 1)
    } else {
        (r0, e as i32)
    };
    let pp = pow10_u64(prec as u32);
    proof {
        assert((sm as int) / (pp as int) < 10) by (nonlinear_arith)
            requires
                pp as int >= 1,
                0 <= (sm as int) < 10 * (pp as int),
        ;
    }
    let mut mant: Vec<u8> = Vec::new();
    if neg {
        mant.push(45);
    }
    mant.push(48 + ((sm / pp) as u8));
    if prec > 0 {
        mant.push(46);
        push_pad0(&mut mant, sm % pp, prec as u32);
    }
    proof {
        assert(sci_parts(m, e, prec) == (sm as int, se as int));
        assert(mant@ =~= sci_mant(neg, sm as int, prec));
    }
    trim_number(&mut mant);
    let mut out = mant;
    out.push(101);
    crate::text::push_i64_text(&mut out, se as i64);
    proof {
        assert(out@ =~= std_sci_text(neg, m, e, prec));
    }
    if out.len() > 17 && prec > 0 {
        let over = out.len() - 17;
        let next: u8 = if over >= prec as usize {
            0
        } else {
            prec - (over as u8)
        };
        std_sci_step(neg, m, e, next)
    } else {
        out
    }
}

/// Display in the adaptive mode.
pub fn disp_std(d: Dec) -> (r: Vec<u8>)
    requires
        dec_wf(d),
    ensures
        r@ == disp_std_spec(d),
        all_ascii(r@),
{
    match d {
        Dec::Zero => {
            let mut out: Vec<u8> = Vec::new();
            out.push(48);
            proof {
                assert(out@ =~= disp_std_spec(d));
            }
            out
        },
        Dec::Inf { neg } => {
            let mut out: Vec<u8> = Vec::new();
            push_inf(&mut out, neg);
            proof {
                assert(out@ =~= disp_std_spec(d));
            }
            out
        },
        Dec::Fin { neg, m, e } => {
            if -6 <= e && e <= 12 {
                std_fixed_step(neg, m, e, 12)
            } else {
                std_sci_step(neg, m, e, 12)
            }
        },
    }
}

} // verus!

verus! {

/// The raw display: the canonical leading-point scientific encoding itself.
pub fn disp_raw(d: Dec) -> (r: Vec<u8>)
    requires
        dec_wf(d),
    ensures
        r@ == crate::repr::encode_dec(d),
        all_ascii(r@),
{
    let mut out: Vec<u8> = Vec::new();
    crate::repr::push_dec(&mut out, d);
    proof {
        crate::repr::lemma_encode_dec_or_int_ascii(d);
        assert(out@ =~= crate::repr::encode_dec(d));
    }
    out
}

/// A real's display: exactly-integral values take the integer path,
/// infinities are `+oo` / `-oo` everywhere, and the rest follows the mode
/// (hexadecimal modes route through the adaptive one; precisions are capped
/// at 12 digits).
pub open spec fn disp_r_spec(d: Dec, disp: NumDisplay) -> Seq<u8> {
    if disp_as_int_spec(d) {
        disp_z_spec(to_i64_round_spec(d), disp)
    } else {
        match d {
            Dec::Inf { neg } => inf_text(neg),
            _ => match disp {
                NumDisplay::Raw => crate::repr::encode_dec(d),
                NumDisplay::Fix(p) => disp_fix_spec(d, cap12(p)),
                NumDisplay::Sci(p) => disp_sci_spec(d, cap12(p)),
                _ => disp_std_spec(d),
            },
        }
    }
}

/// Precisions above 12 digits are shown at 12.
pub open spec fn cap12(p: u8) -> u8 {
    if p > 12 {
        12
    } else {
        p
    }
}

/// Display a real.
pub fn disp_r(d: Dec, disp: NumDisplay) -> (r: String)
    requires
        dec_wf(d),
    ensures
        r@ == chars_of(disp_r_spec(d, disp)),
{
    if disp_as_int(d) {
        disp_z(dec_to_i64_exact(d), disp)
    } else {
        match d {
            Dec::Inf { neg } => {
                let mut out: Vec<u8> = Vec::new();
                push_inf(&mut out, neg);
                crate::text::ascii_string(&out)
            },
            _ => {
                let out: Vec<u8> = match disp {
                    NumDisplay::Raw => disp_raw(d),
                    NumDisplay::Fix(p) => disp_fix(
                        d,
                        if p > 12 {
                            12
                        } else {
                            p
                        },
                    ),
                    NumDisplay::Sci(p) => disp_sci(
                        d,
                        if p > 12 {
                            12
                        } else {
                            p
                        },
                    ),
                    _ => disp_std(d),
                };
                crate::text::ascii_string(&out)
            },
        }
    }
}

/// A complex value's display: a zero imaginary part shows the real part
/// alone; an infinite imaginary part shows `+ioo` / `-ioo`; otherwise
/// `<real><sign><imag>i`, the digit omitted for a unit coefficient.
pub open spec fn disp_c_spec(re: Dec, im: Dec, disp: NumDisplay) -> Seq<u8> {
    match im {
        Dec::Zero => disp_r_spec(re, disp),
        Dec::Inf { neg } => if neg {
            seq![45u8, 105u8, 111u8, 111u8]
        } else {
            seq![43u8, 105u8, 111u8, 111u8]
        },
        Dec::Fin { neg, m, e } => {
            let sign: Seq<u8> = if neg {
                seq![45u8]
            } else {
                seq![43u8]
            };
            let coeff: Seq<u8> = if m == crate::dec::MANT_MIN && e == 0 {
                Seq::<u8>::empty()
            } else {
                disp_r_spec(Dec::Fin { neg: false, m, e }, disp)
            };
            disp_r_spec(re, disp) + sign + coeff + seq![105u8]
        },
    }
}

/// Display a complex value.
pub fn disp_c(re: Dec, im: Dec, disp: NumDisplay) -> (r: String)
    requires
        dec_wf(re),
        dec_wf(im),
    ensures
        r@ == chars_of(disp_c_spec(re, im, disp)),
{
    match im {
        Dec::Zero => disp_r(re, disp),
        Dec::Inf { neg } => {
            let mut out = String::new();
            if neg {
                out.push_str("-ioo");
            } else {
                out.push_str("+ioo");
            }
            proof {
                reveal_strlit("-ioo");
                reveal_strlit("+ioo");
                assert(out@ =~= chars_of(disp_c_spec(re, im, disp)));
            }
            out
        },
        Dec::Fin { neg, m, e } => {
            let mut out = disp_r(re, disp);
            if neg {
                out.push('-');
            } else {
                out.push('+');
            }
            if !(m == crate::dec::MANT_MIN && e == 0) {
                let coeff = disp_r(Dec::Fin { neg: false, m, e }, disp);
                out.push_str(coeff.as_str());
            }
            out.push('i');
            proof {
                assert(out@ =~= chars_of(disp_c_spec(re, im, disp)));
            }
            out
        },
    }
}

/// The decimal exponent of a real: its order of magnitude, zero for zero,
/// the largest `i16` for an infinity.
pub fn exponent(d: Dec) -> (r: i16)
    requires
        dec_wf(d),
    ensures
        r == match d {
            Dec::Zero => 0i16,
            Dec::Fin { e, .. } => e,
            Dec::Inf { .. } => i16::MAX,
        },
{
    crate::dec::exponent(d)
}

/// Is the real shown as an integer (zero fraction, exponent in `[0, 14)`)?
pub fn is_disp_as_z(d: Dec) -> (r: bool)
    requires
        dec_wf(d),
    ensures
        r == disp_as_int_spec(d),
{
    disp_as_int(d)
}

/// A native value's display under a mode.
pub open spec fn disp_native_spec(v: Native, disp: NumDisplay) -> Seq<u8> {
    match v {
        Native::Integer(z) => disp_z_spec(z, disp),
        Native::Real(d) => disp_r_spec(d, disp),
        Native::Quotient(n, dd) => disp_q_spec(n, dd),
        Native::Complex(re, im) => disp_c_spec(re, im, disp),
    }
}

impl Native {
    /// Display the value under a mode.
    pub fn disp(&self, disp: NumDisplay) -> (r: String)
        requires
            crate::native::native_wf(*self),
        ensures
            r@ == chars_of(disp_native_spec(*self, disp)),
    {
        match *self {
            Native::Integer(z) => disp_z(z, disp),
            Native::Real(d) => disp_r(d, disp),
            Native::Quotient(n, dd) => disp_q(n, dd, disp),
            Native::Complex(re, im) => disp_c(re, im, disp),
        }
    }
}

impl crate::num::Num {
    /// Display the value under a mode.
    pub fn disp(&self, disp: NumDisplay) -> (r: String)
        requires
            self.wf(),
        ensures
            r@ == chars_of(disp_native_spec(self@, disp)),
    {
        proof {
            self.lemma_wf();
        }
        let v = self.to_native();
        v.disp(disp)
    }
}

} // verus!
