//! The native number domains of the calculator: 64-bit integers, decimal
//! reals, reduced quotients, and complex numbers over the decimal reals.
//! A value element of a narrower domain is canonicalized ("fixed") into it:
//! a quotient with denominator one becomes an integer, a complex value with
//! zero imaginary part becomes a real (or an integer when exactly integral),
//! and an exactly-integral real with decimal exponent in `[0, 14)` becomes
//! an integer.

use crate::cplx::{hypot, hypot_spec};
use crate::dec::{
    dec_div, dec_from_i64, dec_to_i64_round, dec_wf, disp_as_int, disp_as_int_spec, div_spec,
    norm_spec, to_i64_round_spec, Dec,
};
use crate::qrat::{abs_int, gcd_nat, q_new, q_round, reduce_frac, Q_NEW_MAX};
use vstd::prelude::*;

verus! {

/// A number in one of the four domains.
#[derive(Clone, Copy, Debug, PartialEq, Eq, Structural)]
pub enum Native {
    /// A 64-bit signed integer.
    Integer(i64),
    /// A decimal real (or a signed infinity).
    Real(Dec),
    /// An exact quotient `numerator / denominator`.
    Quotient(i64, i64),
    /// A complex number, real and imaginary part.
    Complex(Dec, Dec),
}

/// A domain-check or parse failure, carrying its user-facing message.
#[derive(Clone, Debug)]
pub struct NativeError(pub String);

/// Basic well-formedness: decimals are normalized, denominators positive.
pub open spec fn native_wf(v: Native) -> bool {
    match v {
        Native::Integer(_) => true,
        Native::Real(d) => dec_wf(d),
        Native::Quotient(n, d) => d > 0 && gcd_nat(abs_int(n as int) as nat, d as nat) == 1,
        Native::Complex(re, im) => dec_wf(re) && dec_wf(im),
    }
}

/// Canonical ("fixed") form: on top of well-formedness, a quotient is
/// reduced with denominator at least two, a real is not exactly integral in
/// the collapsing window, and a complex value has a nonzero imaginary part,
/// a finite real part, and a zero real part beside an infinite imaginary one.
pub open spec fn native_canon(v: Native) -> bool {
    native_wf(v) && match v {
        Native::Integer(_) => true,
        Native::Real(d) => !disp_as_int_spec(d),
        Native::Quotient(n, d) => d >= 2,
        Native::Complex(re, im) => im != Dec::Zero && !(re is Inf) && (im is Inf ==> re
            == Dec::Zero),
    }
}

/// Does the value pass the domain checks?  A quotient part beyond 999,999 in
/// magnitude is rejected; nothing else can be invalid (the decimal reals hold
/// no undefined value by construction).
pub open spec fn check_ok(v: Native) -> bool {
    match v {
        Native::Quotient(n, d) => -999_999 <= n <= 999_999 && d <= 999_999,
        _ => true,
    }
}

/// Canonicalization: collapse each value into the narrowest domain.
pub open spec fn fix_spec(v: Native) -> Native {
    match v {
        Native::Integer(_) => v,
        Native::Real(d) => fix_real_spec(d),
        Native::Quotient(n, d) => if d == 1 {
            Native::Integer(n)
        } else {
            v
        },
        Native::Complex(re, im) => if im == Dec::Zero {
            fix_real_spec(re)
        } else if re is Inf {
            Native::Real(re)
        } else if im is Inf {
            Native::Complex(Dec::Zero, im)
        } else {
            v
        },
    }
}

/// A real collapses to an integer when it is exactly integral with decimal
/// exponent in `[0, 14)`.
pub open spec fn fix_real_spec(d: Dec) -> Native {
    if disp_as_int_spec(d) {
        Native::Integer(to_i64_round_spec(d))
    } else {
        Native::Real(d)
    }
}

/// The exactly-integral real as an integer.
pub fn dec_to_i64_exact(d: Dec) -> (r: i64)
    requires
        dec_wf(d),
        disp_as_int_spec(d),
    ensures
        r == to_i64_round_spec(d),
{
    dec_to_i64_round(d)
}

impl Native {
    /// Check the value: a quotient part beyond 999,999 in magnitude is a
    /// domain error; everything else passes (no undefined real exists here).
    pub fn check(self) -> (r: Result<Native, NativeError>)
        ensures
            r is Ok <==> check_ok(self),
            r is Ok ==> r->Ok_0 == self,
            r matches Err(e) ==> e.0@ == "numerator or denominator beyond 999999"@,
    {
        match self {
            Native::Quotient(n, d) => {
                if n > 999_999 || n < -999_999 || d > 999_999 {
                    Err(NativeError(numerator_overflow_msg()))
                } else {
                    Ok(self)
                }
            },
            _ => Ok(self),
        }
    }

    /// Canonicalize the value into the narrowest domain.
    pub fn fix(self) -> (r: Native)
        requires
            native_wf(self),
        ensures
            r == fix_spec(self),
            native_wf(r),
    {
        match self {
            Native::Integer(_) => self,
            Native::Real(d) => fix_real(d),
            Native::Quotient(n, d) => {
                if d == 1 {
                    Native::Integer(n)
                } else {
                    self
                }
            },
            Native::Complex(re, im) => {
                if matches!(im, Dec::Zero) {
                    fix_real(re)
                } else if matches!(re, Dec::Inf { .. }) {
                    Native::Real(re)
                } else if matches!(im, Dec::Inf { .. }) {
                    Native::Complex(Dec::Zero, im)
                } else {
                    self
                }
            },
        }
    }
}

/// Collapse an exactly-integral real to an integer.
pub fn fix_real(d: Dec) -> (r: Native)
    requires
        dec_wf(d),
    ensures
        r == fix_real_spec(d),
        native_wf(r),
{
    if disp_as_int(d) {
        Native::Integer(dec_to_i64_exact(d))
    } else {
        Native::Real(d)
    }
}

/// The message of the quotient domain check.
pub fn numerator_overflow_msg() -> (r: String)
    ensures
        r@ == "numerator or denominator beyond 999999"@,
{
    let mut s = String::new();
    s.push_str("numerator or denominator beyond 999999");
    s
}

/// The message of the undefined-result check (zero by zero and the like).
pub fn undefined_msg() -> (r: String)
    ensures
        r@ == "undefined number"@,
{
    let mut s = String::new();
    s.push_str("undefined number");
    s
}

} // verus!

verus! {

/// Anything is reduced against a denominator of one.
pub proof fn lemma_gcd_one(a: nat)
    ensures
        gcd_nat(a, 1) == 1,
{
    assert(gcd_nat(a, 1) == gcd_nat(1, 0));
}

/// Canonicalization of a well-formed value yields a canonical one.
pub proof fn lemma_fix_canon(v: Native)
    requires
        native_wf(v),
    ensures
        native_canon(fix_spec(v)),
{
}

/// Canonicalization preserves the domain check.
pub proof fn lemma_fix_check(v: Native)
    requires
        check_ok(v),
    ensures
        check_ok(fix_spec(v)),
{
}

/// Nearest integer, ties away from zero, of a reduced quotient.
pub open spec fn q_round_val(n: int, d: int) -> int
    recommends
        d > 0,
{
    if n >= 0 {
        n / d + (if 2 * (n % d) >= d {
            1int
        } else {
            0int
        })
    } else {
        -((-n) / d + (if 2 * ((-n) % d) >= d {
            1int
        } else {
            0int
        }))
    }
}

/// The conversion of each domain to a 64-bit integer: reals round half away
/// from zero (saturating), quotients round half away from zero, a complex
/// value takes its modulus first.
pub open spec fn as_z_spec(v: Native) -> int {
    match v {
        Native::Integer(z) => z as int,
        Native::Real(d) => to_i64_round_spec(d) as int,
        Native::Quotient(n, d) => q_round_val(n as int, d as int),
        Native::Complex(re, im) => to_i64_round_spec(hypot_spec(re, im)) as int,
    }
}

/// The conversion of each domain to a decimal real: an integer rounds to 14
/// digits, a quotient divides, a complex value takes its modulus.
pub open spec fn as_r_spec(v: Native) -> Dec {
    match v {
        Native::Integer(z) => norm_spec(z < 0, abs_int(z as int), 0, false),
        Native::Real(d) => d,
        Native::Quotient(n, d) => {
            let dn = norm_spec(n < 0, abs_int(n as int), 0, false);
            let dd = norm_spec(false, d as int, 0, false);
            match div_spec(dn, dd) {
                Some(x) => x,
                None => Dec::Zero,
            }
        },
        Native::Complex(re, im) => hypot_spec(re, im),
    }
}

/// The conversion of each domain to a reduced quotient, where one exists:
/// an integer is put over one; a finite real becomes its exact decimal
/// fraction where numerator and denominator fit the wrapped range, and is
/// otherwise a domain error; an infinity collapses to zero over one; a
/// complex value takes its modulus first.
pub open spec fn as_q_spec(v: Native) -> Option<(int, int)> {
    match v {
        Native::Integer(z) => Some((z as int, 1)),
        Native::Real(d) => dec_as_q_spec(d),
        Native::Quotient(n, d) => Some((n as int, d as int)),
        Native::Complex(re, im) => dec_as_q_spec(hypot_spec(re, im)),
    }
}

/// A decimal real as an exact reduced fraction (see [`as_q_spec`]).
pub open spec fn dec_as_q_spec(d: Dec) -> Option<(int, int)> {
    match d {
        Dec::Zero => Some((0, 1)),
        Dec::Inf { .. } => Some((0, 1)),
        Dec::Fin { neg, m, e } => {
            let ms = crate::repr::strip0(m as int);
            let z = crate::dec::n_digits(m as int) - crate::dec::n_digits(ms);
            let sn: int = if neg {
                -ms
            } else {
                ms as int
            };
            if e >= 13 {
                if e <= 17 {
                    Some((sn * crate::dec::pow10((e - 13) as nat), 1))
                } else {
                    None
                }
            } else if 13 - e - z > 15 {
                None
            } else if 13 - e - z >= 1 {
                Some(reduce_frac(sn, crate::dec::pow10((13 - e - z) as nat)))
            } else {
                Some((sn * crate::dec::pow10((e + z - 13) as nat), 1))
            }
        },
    }
}

/// The conversion of each domain to a complex pair.
pub open spec fn as_c_spec(v: Native) -> (Dec, Dec) {
    match v {
        Native::Integer(z) => (norm_spec(z < 0, abs_int(z as int), 0, false), Dec::Zero),
        Native::Real(d) => (d, Dec::Zero),
        Native::Quotient(_, _) => (as_r_spec(v), Dec::Zero),
        Native::Complex(re, im) => (re, im),
    }
}

impl Native {
    /// Round to a 64-bit integer (reals and quotients half away from zero,
    /// saturating; a complex value by its modulus).
    pub fn as_z(self) -> (r: i64)
        requires
            native_wf(self),
        ensures
            r == as_z_spec(self),
    {
        match self {
            Native::Integer(z) => z,
            Native::Real(d) => dec_to_i64_round(d),
            Native::Quotient(n, d) => q_round(n, d),
            Native::Complex(re, im) => dec_to_i64_round(hypot(re, im)),
        }
    }

    /// The canonical integer conversion.
    pub fn to_z(self) -> (r: Native)
        requires
            native_wf(self),
        ensures
            r == fix_spec(Native::Integer(as_z_spec(self) as i64)),
            native_wf(r),
    {
        Native::Integer(self.as_z()).fix()
    }

    /// Convert to a decimal real.
    pub fn as_r(self) -> (r: Dec)
        requires
            native_wf(self),
        ensures
            r == as_r_spec(self),
            dec_wf(r),
    {
        match self {
            Native::Integer(z) => dec_from_i64(z),
            Native::Real(d) => d,
            Native::Quotient(n, d) => {
                let dn = dec_from_i64(n);
                let dd = dec_from_i64(d);
                match dec_div(dn, dd) {
                    Some(x) => x,
                    None => Dec::Zero,
                }
            },
            Native::Complex(re, im) => hypot(re, im),
        }
    }

    /// The canonical real conversion.
    pub fn to_r(self) -> (r: Native)
        requires
            native_wf(self),
        ensures
            r == fix_spec(Native::Real(as_r_spec(self))),
            native_wf(r),
    {
        Native::Real(self.as_r()).fix()
    }

    /// Convert to a reduced quotient pair; a real outside the exactly
    /// representable fraction range is a domain error.
    pub fn as_q(self) -> (r: Result<(i64, i64), NativeError>)
        requires
            native_wf(self),
        ensures
            match r {
                Ok(q) => as_q_spec(self) == Some((q.0 as int, q.1 as int)) && q.1 > 0 && gcd_nat(
                    abs_int(q.0 as int) as nat,
                    q.1 as nat,
                ) == 1,
                Err(e) => as_q_spec(self) is None && e.0@
                    == "numerator or denominator beyond 999999"@,
            },
    {
        match self {
            Native::Integer(z) => {
                proof {
                    lemma_gcd_one(abs_int(z as int) as nat);
                }
                Ok((z, 1))
            },
            Native::Real(d) => dec_as_q(d),
            Native::Quotient(n, d) => Ok((n, d)),
            Native::Complex(re, im) => dec_as_q(hypot(re, im)),
        }
    }

    /// The canonical quotient conversion: succeeds exactly where a quotient
    /// form exists.
    pub fn to_q(self) -> (r: Result<Native, NativeError>)
        requires
            native_wf(self),
        ensures
            r is Ok <==> as_q_spec(self) is Some,
            match r {
                Ok(v) => as_q_spec(self) matches Some(q) && v == fix_spec(
                    Native::Quotient(q.0 as i64, q.1 as i64),
                ) && native_wf(v),
                Err(e) => as_q_spec(self) is None && e.0@
                    == "numerator or denominator beyond 999999"@,
            },
    {
        match self.as_q() {
            Ok(q) => Ok(Native::Quotient(q.0, q.1).fix()),
            Err(e) => Err(e),
        }
    }

    /// Convert to a complex pair.
    pub fn as_c(self) -> (r: (Dec, Dec))
        requires
            native_wf(self),
        ensures
            r == as_c_spec(self),
            dec_wf(r.0),
            dec_wf(r.1),
    {
        match self {
            Native::Integer(z) => (dec_from_i64(z), Dec::Zero),
            Native::Real(d) => (d, Dec::Zero),
            Native::Quotient(_, _) => (self.as_r(), Dec::Zero),
            Native::Complex(re, im) => (re, im),
        }
    }

    /// The canonical complex conversion.
    pub fn to_c(self) -> (r: Native)
        requires
            native_wf(self),
        ensures
            r == fix_spec(Native::Complex(as_c_spec(self).0, as_c_spec(self).1)),
            native_wf(r),
    {
        let c = self.as_c();
        Native::Complex(c.0, c.1).fix()
    }
}

/// A decimal real as an exact reduced fraction (see [`dec_as_q_spec`]).
pub fn dec_as_q(d: Dec) -> (r: Result<(i64, i64), NativeError>)
    requires
        dec_wf(d),
    ensures
        match r {
            Ok(q) => dec_as_q_spec(d) == Some((q.0 as int, q.1 as int)) && q.1 > 0 && gcd_nat(
                abs_int(q.0 as int) as nat,
                q.1 as nat,
            ) == 1,
            Err(e) => dec_as_q_spec(d) is None && e.0@
                == "numerator or denominator beyond 999999"@,
        },
{
    proof {
        crate::dec::lemma_pow10_values();
        lemma_gcd_one(0);
    }
    match d {
        Dec::Zero => Ok((0, 1)),
        Dec::Inf { .. } => Ok((0, 1)),
        Dec::Fin { neg, m, e } => {
            proof {
                crate::dec::lemma_n_digits_of_range(m as int, 14);
            }
            let mut ms: u64 = m;
            let mut z: u32 = 0;
            while ms >= 10 && ms % 10 == 0
                invariant
                    crate::repr::strip0(m as int) == crate::repr::strip0(ms as int),
                    1 <= ms <= m,
                    crate::dec::n_digits(m as int) == z + crate::dec::n_digits(ms as int),
                    crate::dec::n_digits(m as int) == 14,
                    crate::dec::n_digits(ms as int) >= 1,
                    m as int == (ms as int) * crate::dec::pow10(z as nat),
                decreases ms,
            {
                proof {
                    crate::dec::lemma_pow10_adds(z as nat, 1);
                    assert((ms as int) * crate::dec::pow10(z as nat) == ((ms as int) / 10) * (
                    crate::dec::pow10(z as nat) * 10)) by (nonlinear_arith)
                        requires
                            ms as int % 10 == 0,
                            ms >= 10,
                    ;
                }
                ms = ms / 10;
                z = z + 1;
            }
            proof {
                assert(crate::repr::strip0(ms as int) == ms as int);
                assert(ms as int == crate::repr::strip0(m as int));
            }
            let sn: i64 = if neg {
                -(ms as i64)
            } else {
                ms as i64
            };
            if e >= 13 {
                if e <= 17 {
                    let p = crate::dec::pow10_u64((e as u32) - 13);
                    proof {
                        crate::dec::lemma_pow10_pos((e - 13) as nat);
                        crate::dec::lemma_pow10_mono((e - 13) as nat, 4);
                        assert((ms as int) * crate::dec::pow10((e - 13) as nat) <= crate::dec::pow10(
                            14,
                        ) * crate::dec::pow10(4)) by (nonlinear_arith)
                            requires
                                0 <= (ms as int) <= crate::dec::pow10(14),
                                0 < crate::dec::pow10((e - 13) as nat) <= crate::dec::pow10(4),
                        ;
                        crate::dec::lemma_pow10_adds(14, 4);
                        lemma_gcd_one(abs_int(sn as int * crate::dec::pow10((e - 13) as nat)) as nat);
                    }
                    let mag = ms * p;
                    let v: i64 = if neg {
                        -(mag as i64)
                    } else {
                        mag as i64
                    };
                    proof {
                        lemma_gcd_one(abs_int(v as int) as nat);
                        assert((-(ms as int)) * crate::dec::pow10((e - 13) as nat) == -((ms as int)
                            * crate::dec::pow10((e - 13) as nat))) by (nonlinear_arith);
                        assert(dec_as_q_spec(d) == Some((v as int, 1int)));
                    }
                    Ok((v, 1))
                } else {
                    Err(NativeError(numerator_overflow_msg()))
                }
            } else {
                let den_exp = 13 - (e as i32) - (z as i32);
                if den_exp > 15 {
                    Err(NativeError(numerator_overflow_msg()))
                } else if den_exp >= 1 {
                    proof {
                        crate::dec::lemma_pow10_mono((13 - e - z) as nat, 15);
                        crate::dec::lemma_pow10_pos((13 - e - z) as nat);
                    }
                    let den = crate::dec::pow10_u64(den_exp as u32);
                    let q = q_new(sn, den as i64);
                    proof {
                        assert(dec_as_q_spec(d) == Some((q.0 as int, q.1 as int)));
                    }
                    Ok(q)
                } else {
                    proof {
                        crate::dec::lemma_pow10_pos((e + z - 13) as nat);
                        crate::dec::lemma_pow10_mono((e + z - 13) as nat, z as nat);
                        assert((ms as int) * crate::dec::pow10((e + z - 13) as nat) <= (ms as int)
                            * crate::dec::pow10(z as nat)) by (nonlinear_arith)
                            requires
                                ms >= 1,
                                0 < crate::dec::pow10((e + z - 13) as nat) <= crate::dec::pow10(
                                    z as nat,
                                ),
                        ;
                    }
                    let p = crate::dec::pow10_u64((0 - den_exp) as u32);
                    let mag = ms * p;
                    let v: i64 = if neg {
                        -(mag as i64)
                    } else {
                        mag as i64
                    };
                    proof {
                        lemma_gcd_one(abs_int(v as int) as nat);
                        assert((-(ms as int)) * crate::dec::pow10((e + z - 13) as nat) == -((
                        ms as int) * crate::dec::pow10((e + z - 13) as nat))) by (nonlinear_arith);
                        assert(dec_as_q_spec(d) == Some((v as int, 1int)));
                    }
                    Ok((v, 1))
                }
            }
        },
    }
}

} // verus!
