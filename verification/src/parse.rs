//! Parsing of the textual number grammar back into a native value.
//!
//! Markers decide the form, in priority order: a literal infinity prefix
//! (`+o` / `-o`); an imaginary-unit marker (`I` or `i`, complex); a slash
//! (quotient); a leading `H` (hexadecimal integer, read unsigned and
//! reinterpreted as signed); a decimal point or exponent letter (real);
//! otherwise a decimal integer.  Real mantissas keep 15 significant digits
//! plus a sticky bit and are rounded to the canonical 14 by [`norm_spec`].

use crate::dec::{norm, norm_spec, Dec};
use crate::native::{Native, NativeError};
use crate::qrat::{gcd_nat, abs_int, q_new, reduce_frac, Q_NEW_MAX};
use vstd::prelude::*;

verus! {

/// Fifteen decimal digits: mantissa accumulation stops here.
pub const ACC_LIM: u64 = 100_000_000_000_000;

/// Absorbing cap for scale counters (far beyond the exponent clamp).
pub const SCALE_CAP: u32 = 600;

/// Absorbing cap for explicit exponents (beyond any reachable scale).
pub const EXP_CAP: i32 = 1600;

pub open spec fn is_digit(b: u8) -> bool {
    48 <= b <= 57
}

/// Scan integer-part digits from `i`: accumulate up to 15 significant
/// digits, count dropped trailing digits (capped), record a sticky bit.
/// Returns (position, accumulator, dropped, sticky, any-digit-seen).
pub open spec fn fold_int_digits(s: Seq<u8>, i: int, acc: int, dropped: int, sticky: bool, any: bool) -> (
    int,
    int,
    int,
    bool,
    bool,
)
    decreases s.len() - i,
{
    if 0 <= i < s.len() && is_digit(s[i]) {
        let dig = s[i] - 48;
        if acc < ACC_LIM {
            fold_int_digits(s, i + 1, acc * 10 + dig, dropped, sticky, true)
        } else {
            fold_int_digits(
                s,
                i + 1,
                acc,
                if dropped < SCALE_CAP {
                    dropped + 1
                } else {
                    dropped as int
                },
                sticky || dig != 0,
                true,
            )
        }
    } else {
        (i, acc, dropped, sticky, any)
    }
}

/// Scan fractional digits from `i`: accumulate up to 15 significant digits,
/// counting the scale (capped), record a sticky bit.
/// Returns (position, accumulator, scale, sticky, any-digit-seen).
pub open spec fn fold_frac_digits(s: Seq<u8>, i: int, acc: int, scale: int, sticky: bool, any: bool) -> (
    int,
    int,
    int,
    bool,
    bool,
)
    decreases s.len() - i,
{
    if 0 <= i < s.len() && is_digit(s[i]) {
        let dig = s[i] - 48;
        if acc < ACC_LIM {
            fold_frac_digits(
                s,
                i + 1,
                acc * 10 + dig,
                if scale < SCALE_CAP {
                    scale + 1
                } else {
                    scale as int
                },
                sticky,
                true,
            )
        } else {
            fold_frac_digits(s, i + 1, acc, scale, sticky || dig != 0, true)
        }
    } else {
        (i, acc, scale, sticky, any)
    }
}

/// Scan exponent digits from `i`, capping the value.
/// Returns (position, value, any-digit-seen).
pub open spec fn fold_exp_digits(s: Seq<u8>, i: int, acc: int, any: bool) -> (int, int, bool)
    decreases s.len() - i,
{
    if 0 <= i < s.len() && is_digit(s[i]) {
        let dig = s[i] - 48;
        let acc2: int = if acc * 10 + dig > EXP_CAP {
            EXP_CAP as int
        } else {
            acc * 10 + dig
        };
        fold_exp_digits(s, i + 1, acc2, true)
    } else {
        (i, acc, any)
    }
}

/// The real grammar: optional sign, digits, optional point and digits,
/// optional exponent letter with signed digits; at least one mantissa digit,
/// nothing left over.  The value is the rounded mantissa at its scale.
pub open spec fn parse_real_spec(s: Seq<u8>) -> Option<Dec> {
    let n = s.len() as int;
    let neg = n > 0 && s[0] == 45;
    let i0: int = if n > 0 && (s[0] == 45 || s[0] == 43) {
        1
    } else {
        0
    };
    let fi = fold_int_digits(s, i0, 0, 0, false, false);
    let ff = if fi.0 < n && s[fi.0] == 46 {
        fold_frac_digits(s, fi.0 + 1, fi.1, 0, fi.3, fi.4)
    } else {
        (fi.0, fi.1, 0int, fi.3, fi.4)
    };
    if !ff.4 {
        None
    } else if ff.0 < n && (s[ff.0] == 101 || s[ff.0] == 69) {
        let eneg = ff.0 + 1 < n && s[ff.0 + 1] == 45;
        let j: int = if ff.0 + 1 < n && (s[ff.0 + 1] == 45 || s[ff.0 + 1] == 43) {
            ff.0 + 2
        } else {
            ff.0 + 1
        };
        let fe = fold_exp_digits(s, j, 0, false);
        if !fe.2 || fe.0 != n {
            None
        } else {
            let ev: int = if eneg {
                -fe.1
            } else {
                fe.1
            };
            Some(norm_spec(neg, ff.1, ev + fi.2 - ff.2, ff.3))
        }
    } else if ff.0 != n {
        None
    } else {
        Some(norm_spec(neg, ff.1, fi.2 - ff.2, ff.3))
    }
}

/// A real or a literal infinity: the component grammar of a complex number.
pub open spec fn parse_simple_spec(s: Seq<u8>) -> Option<Dec> {
    if s.len() >= 2 && s[0] == 43 && s[1] == 111 {
        Some(Dec::Inf { neg: false })
    } else if s.len() >= 2 && s[0] == 45 && s[1] == 111 {
        Some(Dec::Inf { neg: true })
    } else {
        parse_real_spec(s)
    }
}

/// Fold decimal digits into a signed 64-bit value; `None` past the range.
/// Returns (position, magnitude) on success.
pub open spec fn fold_i64_digits(s: Seq<u8>, i: int, acc: int) -> Option<(int, int)>
    decreases s.len() - i,
{
    if 0 <= i < s.len() && is_digit(s[i]) {
        let acc2 = acc * 10 + (s[i] - 48);
        if acc2 > 0x8000_0000_0000_0000 {
            None
        } else {
            fold_i64_digits(s, i + 1, acc2)
        }
    } else {
        Some((i, acc))
    }
}

/// The 64-bit integer grammar: optional sign, digits, nothing left over.
pub open spec fn parse_i64_spec(s: Seq<u8>) -> Option<i64> {
    let n = s.len() as int;
    let neg = n > 0 && s[0] == 45;
    let i0: int = if n > 0 && (s[0] == 45 || s[0] == 43) {
        1
    } else {
        0
    };
    match fold_i64_digits(s, i0, 0) {
        None => None,
        Some((pos, mag)) => {
            if pos != n || pos == i0 {
                None
            } else if neg {
                if mag <= 0x8000_0000_0000_0000 {
                    Some((-mag) as i64)
                } else {
                    None
                }
            } else {
                if mag <= 0x7fff_ffff_ffff_ffff {
                    Some(mag as i64)
                } else {
                    None
                }
            }
        },
    }
}

pub open spec fn hex_val(b: u8) -> int {
    if 48 <= b <= 57 {
        b - 48
    } else if 97 <= b <= 102 {
        b - 97 + 10
    } else if 65 <= b <= 70 {
        b - 65 + 10
    } else {
        -1
    }
}

/// Fold hexadecimal digits into an unsigned 64-bit value.
pub open spec fn fold_hex_digits(s: Seq<u8>, i: int, acc: int) -> Option<(int, int)>
    decreases s.len() - i,
{
    if 0 <= i < s.len() && hex_val(s[i]) >= 0 {
        let acc2 = acc * 16 + hex_val(s[i]);
        if acc2 > 0xffff_ffff_ffff_ffff {
            None
        } else {
            fold_hex_digits(s, i + 1, acc2)
        }
    } else {
        Some((i, acc))
    }
}

/// The hexadecimal grammar (after the leading marker): optional plus sign,
/// hex digits, nothing left over; the unsigned value reinterpreted as signed.
pub open spec fn parse_hex_spec(s: Seq<u8>) -> Option<i64> {
    let n = s.len() as int;
    let i0: int = if n > 0 && s[0] == 43 {
        1
    } else {
        0
    };
    match fold_hex_digits(s, i0, 0) {
        None => None,
        Some((pos, v)) => {
            if pos != n || pos == i0 {
                None
            } else if v >= 0x8000_0000_0000_0000 {
                Some((v - 0x1_0000_0000_0000_0000) as i64)
            } else {
                Some(v as i64)
            }
        },
    }
}

/// First position at or after `i` holding `a` or `b` (the length if none).
pub open spec fn find2_spec(s: Seq<u8>, i: int, a: u8, b: u8) -> int
    decreases s.len() - i,
{
    if 0 <= i < s.len() {
        if s[i] == a || s[i] == b {
            i
        } else {
            find2_spec(s, i + 1, a, b)
        }
    } else {
        s.len() as int
    }
}

/// Does the sequence hold a decimal point or an exponent letter?
pub open spec fn has_real_marker(s: Seq<u8>) -> bool {
    exists|i: int| 0 <= i < s.len() && (s[i] == 46 || s[i] == 101 || s[i] == 69)
}

/// The full number grammar, by marker priority.
pub open spec fn parse_native_spec(s: Seq<u8>) -> Option<Native> {
    if s.len() >= 2 && s[0] == 43 && s[1] == 111 {
        Some(Native::Real(Dec::Inf { neg: false }))
    } else if s.len() >= 2 && s[0] == 45 && s[1] == 111 {
        Some(Native::Real(Dec::Inf { neg: true }))
    } else if find2_spec(s, 0, 73, 105) < s.len() {
        let p = find2_spec(s, 0, 73, 105);
        match (parse_simple_spec(s.take(p)), parse_simple_spec(s.skip(p + 1))) {
            (Some(re), Some(im)) => Some(Native::Complex(re, im)),
            _ => None,
        }
    } else if find2_spec(s, 0, 47, 47) < s.len() {
        let p = find2_spec(s, 0, 47, 47);
        match (parse_i64_spec(s.take(p)), parse_i64_spec(s.skip(p + 1))) {
            (Some(n), Some(d)) => {
                if d != 0 && -Q_NEW_MAX <= n <= Q_NEW_MAX && -Q_NEW_MAX <= d <= Q_NEW_MAX {
                    Some(
                        Native::Quotient(
                            reduce_frac(n as int, d as int).0 as i64,
                            reduce_frac(n as int, d as int).1 as i64,
                        ),
                    )
                } else {
                    None
                }
            },
            _ => None,
        }
    } else if s.len() >= 1 && s[0] == 72 {
        match parse_hex_spec(s.skip(1)) {
            Some(z) => Some(Native::Integer(z)),
            None => None,
        }
    } else if has_real_marker(s) {
        match parse_real_spec(s) {
            Some(d) => Some(Native::Real(d)),
            None => None,
        }
    } else {
        match parse_i64_spec(s) {
            Some(z) => Some(Native::Integer(z)),
            None => None,
        }
    }
}

} // verus!

verus! {

/// Scan integer-part digits (see [`fold_int_digits`]).
fn scan_int_digits(s: &Vec<u8>, i: usize, acc: u64, dropped: u32, sticky: bool, any: bool) -> (r: (
    usize,
    u64,
    u32,
    bool,
    bool,
))
    requires
        i <= s@.len(),
        acc < 10 * ACC_LIM,
        dropped <= SCALE_CAP,
        sticky ==> acc >= ACC_LIM,
    ensures
        r.3 ==> r.1 >= ACC_LIM,
        (r.0 as int, r.1 as int, r.2 as int, r.3, r.4) == fold_int_digits(
            s@,
            i as int,
            acc as int,
            dropped as int,
            sticky,
            any,
        ),
        r.0 <= s@.len(),
        r.1 < 10 * ACC_LIM,
        r.2 <= SCALE_CAP,
    decreases s@.len() - i,
{
    if i < s.len() && 48 <= s[i] && s[i] <= 57 {
        let dig = (s[i] - 48) as u64;
        if acc < ACC_LIM {
            scan_int_digits(s, i + 1, acc * 10 + dig, dropped, sticky, true)
        } else {
            scan_int_digits(
                s,
                i + 1,
                acc,
                if dropped < SCALE_CAP {
                    dropped + 1
                } else {
                    dropped
                },
                sticky || dig != 0,
                true,
            )
        }
    } else {
        (i, acc, dropped, sticky, any)
    }
}

/// Scan fractional digits (see [`fold_frac_digits`]).
fn scan_frac_digits(s: &Vec<u8>, i: usize, acc: u64, scale: u32, sticky: bool, any: bool) -> (r: (
    usize,
    u64,
    u32,
    bool,
    bool,
))
    requires
        i <= s@.len(),
        acc < 10 * ACC_LIM,
        scale <= SCALE_CAP,
        sticky ==> acc >= ACC_LIM,
    ensures
        r.3 ==> r.1 >= ACC_LIM,
        (r.0 as int, r.1 as int, r.2 as int, r.3, r.4) == fold_frac_digits(
            s@,
            i as int,
            acc as int,
            scale as int,
            sticky,
            any,
        ),
        r.0 <= s@.len(),
        r.1 < 10 * ACC_LIM,
        r.2 <= SCALE_CAP,
    decreases s@.len() - i,
{
    if i < s.len() && 48 <= s[i] && s[i] <= 57 {
        let dig = (s[i] - 48) as u64;
        if acc < ACC_LIM {
            scan_frac_digits(
                s,
                i + 1,
                acc * 10 + dig,
                if scale < SCALE_CAP {
                    scale + 1
                } else {
                    scale
                },
                sticky,
                true,
            )
        } else {
            scan_frac_digits(s, i + 1, acc, scale, sticky || dig != 0, true)
        }
    } else {
        (i, acc, scale, sticky, any)
    }
}

/// Scan exponent digits (see [`fold_exp_digits`]).
fn scan_exp_digits(s: &Vec<u8>, i: usize, acc: i32, any: bool) -> (r: (usize, i32, bool))
    requires
        i <= s@.len(),
        0 <= acc <= EXP_CAP,
    ensures
        (r.0 as int, r.1 as int, r.2) == fold_exp_digits(s@, i as int, acc as int, any),
        r.0 <= s@.len(),
        0 <= r.1 <= EXP_CAP,
    decreases s@.len() - i,
{
    if i < s.len() && 48 <= s[i] && s[i] <= 57 {
        let dig = (s[i] - 48) as i32;
        let acc2 = if acc * 10 + dig > EXP_CAP {
            EXP_CAP
        } else {
            acc * 10 + dig
        };
        scan_exp_digits(s, i + 1, acc2, true)
    } else {
        (i, acc, any)
    }
}

/// Parse a real per [`parse_real_spec`].
pub fn parse_real(s: &Vec<u8>) -> (r: Option<Dec>)
    ensures
        r == parse_real_spec(s@),
        match r {
            Some(d) => crate::dec::dec_wf(d),
            None => true,
        },
{
    proof {
        crate::dec::lemma_pow10_values();
        crate::dec::lemma_pow10_mono(16, 34);
    }
    let n = s.len();
    let neg = n > 0 && s[0] == 45;
    let i0: usize = if n > 0 && (s[0] == 45 || s[0] == 43) {
        1
    } else {
        0
    };
    let fi = scan_int_digits(s, i0, 0, 0, false, false);
    let ff = if fi.0 < n && s[fi.0] == 46 {
        scan_frac_digits(s, fi.0 + 1, fi.1, 0, fi.3, fi.4)
    } else {
        (fi.0, fi.1, 0u32, fi.3, fi.4)
    };
    if !ff.4 {
        return None;
    }
    if ff.0 < n && (s[ff.0] == 101 || s[ff.0] == 69) {
        let eneg = ff.0 + 1 < n && s[ff.0 + 1] == 45;
        let j: usize = if ff.0 + 1 < n && (s[ff.0 + 1] == 45 || s[ff.0 + 1] == 43) {
            ff.0 + 2
        } else {
            ff.0 + 1
        };
        let fe = scan_exp_digits(s, j, 0, false);
        if !fe.2 || fe.0 != n {
            None
        } else {
            let ev: i32 = if eneg {
                -fe.1
            } else {
                fe.1
            };
            Some(norm(neg, ff.1 as u128, ev + fi.2 as i32 - ff.2 as i32, ff.3))
        }
    } else if ff.0 != n {
        None
    } else {
        Some(norm(neg, ff.1 as u128, fi.2 as i32 - ff.2 as i32, ff.3))
    }
}

/// Parse a complex component per [`parse_simple_spec`].
pub fn parse_simple(s: &Vec<u8>) -> (r: Option<Dec>)
    ensures
        r == parse_simple_spec(s@),
        match r {
            Some(d) => crate::dec::dec_wf(d),
            None => true,
        },
{
    if s.len() >= 2 && s[0] == 43 && s[1] == 111 {
        Some(Dec::Inf { neg: false })
    } else if s.len() >= 2 && s[0] == 45 && s[1] == 111 {
        Some(Dec::Inf { neg: true })
    } else {
        parse_real(s)
    }
}

fn scan_i64_digits(s: &Vec<u8>, i: usize, acc: u64) -> (r: Option<(usize, u64)>)
    requires
        i <= s@.len(),
        acc <= 0x8000_0000_0000_0000,
    ensures
        match r {
            Some(p) => fold_i64_digits(s@, i as int, acc as int) == Some(
                (p.0 as int, p.1 as int),
            ) && p.0 <= s@.len() && p.1 <= 0x8000_0000_0000_0000,
            None => fold_i64_digits(s@, i as int, acc as int) is None,
        },
    decreases s@.len() - i,
{
    if i < s.len() && 48 <= s[i] && s[i] <= 57 {
        let dig = (s[i] - 48) as u64;
        let acc2: u128 = acc as u128 * 10 + dig as u128;
        if acc2 > 0x8000_0000_0000_0000u128 {
            None
        } else {
            scan_i64_digits(s, i + 1, acc2 as u64)
        }
    } else {
        Some((i, acc))
    }
}

/// Parse a 64-bit integer per [`parse_i64_spec`].
pub fn parse_i64(s: &Vec<u8>) -> (r: Option<i64>)
    ensures
        r == parse_i64_spec(s@),
{
    let n = s.len();
    let neg = n > 0 && s[0] == 45;
    let i0: usize = if n > 0 && (s[0] == 45 || s[0] == 43) {
        1
    } else {
        0
    };
    match scan_i64_digits(s, i0, 0) {
        None => None,
        Some((pos, mag)) => {
            if pos != n || pos == i0 {
                None
            } else if neg {
                if mag == 0x8000_0000_0000_0000u64 {
                    Some(i64::MIN)
                } else {
                    Some(-(mag as i64))
                }
            } else {
                if mag <= 0x7fff_ffff_ffff_ffffu64 {
                    Some(mag as i64)
                } else {
                    None
                }
            }
        },
    }
}

fn hex_digit(b: u8) -> (r: i8)
    ensures
        r as int == hex_val(b),
{
    if 48 <= b && b <= 57 {
        (b - 48) as i8
    } else if 97 <= b && b <= 102 {
        (b - 97 + 10) as i8
    } else if 65 <= b && b <= 70 {
        (b - 65 + 10) as i8
    } else {
        -1
    }
}

fn scan_hex_digits(s: &Vec<u8>, i: usize, acc: u64) -> (r: Option<(usize, u64)>)
    requires
        i <= s@.len(),
    ensures
        match r {
            Some(p) => fold_hex_digits(s@, i as int, acc as int) == Some(
                (p.0 as int, p.1 as int),
            ) && p.0 <= s@.len(),
            None => fold_hex_digits(s@, i as int, acc as int) is None,
        },
    decreases s@.len() - i,
{
    if i < s.len() && hex_digit(s[i]) >= 0 {
        let dig = hex_digit(s[i]) as u64;
        let acc2: u128 = acc as u128 * 16 + dig as u128;
        if acc2 > 0xffff_ffff_ffff_ffffu128 {
            None
        } else {
            scan_hex_digits(s, i + 1, acc2 as u64)
        }
    } else {
        Some((i, acc))
    }
}

/// Parse a hexadecimal integer per [`parse_hex_spec`].
pub fn parse_hex(s: &Vec<u8>) -> (r: Option<i64>)
    ensures
        r == parse_hex_spec(s@),
{
    let n = s.len();
    let i0: usize = if n > 0 && s[0] == 43 {
        1
    } else {
        0
    };
    match scan_hex_digits(s, i0, 0) {
        None => None,
        Some((pos, v)) => {
            if pos != n || pos == i0 {
                None
            } else if v >= 0x8000_0000_0000_0000u64 {
                Some(-((0xffff_ffff_ffff_ffffu64 - v) as i64) - 1)
            } else {
                Some(v as i64)
            }
        },
    }
}

/// First position holding `a` or `b` (see [`find2_spec`]).
pub fn find2(s: &Vec<u8>, i: usize, a: u8, b: u8) -> (r: usize)
    requires
        i <= s@.len(),
    ensures
        r as int == find2_spec(s@, i as int, a, b),
        r <= s@.len(),
    decreases s@.len() - i,
{
    if i < s.len() {
        if s[i] == a || s[i] == b {
            i
        } else {
            find2(s, i + 1, a, b)
        }
    } else {
        s.len()
    }
}

fn has_marker(s: &Vec<u8>) -> (r: bool)
    ensures
        r == has_real_marker(s@),
{
    let mut i: usize = 0;
    while i < s.len()
        invariant
            i <= s@.len(),
            forall|j: int| 0 <= j < i ==> !(s@[j] == 46 || s@[j] == 101 || s@[j] == 69),
        decreases s@.len() - i,
    {
        if s[i] == 46 || s[i] == 101 || s[i] == 69 {
            return true;
        }
        i = i + 1;
    }
    false
}

/// Copy of a byte range.
pub fn sub_vec(s: &Vec<u8>, a: usize, b: usize) -> (r: Vec<u8>)
    requires
        a <= b <= s@.len(),
    ensures
        r@ == s@.subrange(a as int, b as int),
{
    let mut v: Vec<u8> = Vec::new();
    let mut i: usize = a;
    while i < b
        invariant
            a <= i <= b <= s@.len(),
            v@ == s@.subrange(a as int, i as int),
        decreases b - i,
    {
        v.push(s[i]);
        proof {
            assert(v@ =~= s@.subrange(a as int, i + 1));
        }
        i = i + 1;
    }
    v
}

/// Parse a number per [`parse_native_spec`]; an input outside the grammar is
/// a recoverable parse error.
pub fn parse_native(s: &Vec<u8>) -> (r: Result<Native, NativeError>)
    ensures
        match r {
            Ok(v) => parse_native_spec(s@) == Some(v) && crate::native::native_wf(v),
            Err(_) => parse_native_spec(s@) is None,
        },
{
    let n = s.len();
    if n >= 2 && s[0] == 43 && s[1] == 111 {
        return Ok(Native::Real(Dec::Inf { neg: false }));
    }
    if n >= 2 && s[0] == 45 && s[1] == 111 {
        return Ok(Native::Real(Dec::Inf { neg: true }));
    }
    let pi = find2(s, 0, 73, 105);
    if pi < n {
        let left = sub_vec(s, 0, pi);
        let right = sub_vec(s, pi + 1, n);
        proof {
            assert(left@ =~= s@.take(pi as int));
            assert(right@ =~= s@.skip(pi as int + 1));
        }
        let re = parse_simple(&left);
        let im = parse_simple(&right);
        match (re, im) {
            (Some(re), Some(im)) => {
                return Ok(Native::Complex(re, im));
            },
            _ => {
                return Err(NativeError(invalid_number_msg()));
            },
        }
    }
    let ps = find2(s, 0, 47, 47);
    if ps < n {
        let left = sub_vec(s, 0, ps);
        let right = sub_vec(s, ps + 1, n);
        proof {
            assert(left@ =~= s@.take(ps as int));
            assert(right@ =~= s@.skip(ps as int + 1));
        }
        let nu = parse_i64(&left);
        let de = parse_i64(&right);
        match (nu, de) {
            (Some(nu), Some(de)) => {
                if de != 0 && -Q_NEW_MAX <= nu && nu <= Q_NEW_MAX && -Q_NEW_MAX <= de && de
                    <= Q_NEW_MAX {
                    let q = q_new(nu, de);
                    return Ok(Native::Quotient(q.0, q.1));
                } else {
                    return Err(NativeError(invalid_number_msg()));
                }
            },
            _ => {
                return Err(NativeError(invalid_number_msg()));
            },
        }
    }
    if n >= 1 && s[0] == 72 {
        let rest = sub_vec(s, 1, n);
        proof {
            assert(rest@ =~= s@.skip(1));
        }
        return match parse_hex(&rest) {
            Some(z) => Ok(Native::Integer(z)),
            None => Err(NativeError(invalid_number_msg())),
        };
    }
    if has_marker(s) {
        return match parse_real(s) {
            Some(d) => Ok(Native::Real(d)),
            None => Err(NativeError(invalid_number_msg())),
        };
    }
    match parse_i64(s) {
        Some(z) => Ok(Native::Integer(z)),
        None => Err(NativeError(invalid_number_msg())),
    }
}

/// The message of a failed number parse.
pub fn invalid_number_msg() -> (r: String)
    ensures
        r@ == "invalid number"@,
{
    let mut s = String::new();
    s.push_str("invalid number");
    s
}

} // verus!
