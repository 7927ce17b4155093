//! The always-canonical numeric handle: a native value in canonical checked
//! form together with its fixed-width textual encoding.  Arithmetic promotes
//! by domain generality — complex if either operand is complex, else
//! quotient if either is a quotient, else real — and every result is
//! canonicalized and checked.

use crate::cplx::{c_add, c_add_spec, c_div, c_div_spec, c_mul, c_mul_spec, c_sub, c_sub_spec};
use crate::dec::{
    add_spec, dec_add, dec_div, dec_fract, dec_mul, dec_neg, dec_round, dec_sub, dec_trunc,
    dec_wf, div_spec, fract_spec, mul_spec, neg_spec, round_spec, trunc_spec, Dec, MANT_MIN,
};
use crate::native::{
    as_c_spec, as_q_spec, as_r_spec, check_ok, fix_spec, lemma_fix_canon, lemma_fix_check,
    lemma_gcd_one, native_canon, native_wf, undefined_msg, Native, NativeError,
    numerator_overflow_msg,
};
use crate::parse::{parse_native, parse_native_spec};
use crate::qrat::{
    abs_int, gcd_nat, q_add, q_div, q_mul, q_new, q_round, q_sub, q_trunc, q_rem, reduce_frac,
    Q_PART_MAX,
};
use crate::repr::{encode_native, padded, repr_native, Repr};
use crate::text::str_bytes;
use vstd::prelude::*;
use vstd::string::StringSliceAdditionalSpecFns;

verus! {

/// A canonical checked number and its fixed-width encoding.
#[derive(Clone, Copy, Debug)]
pub struct Num {
    native: Native,
    repr: Repr,
}

impl View for Num {
    type V = Native;

    closed spec fn view(&self) -> Native {
        self.native
    }
}

impl Num {
    /// The handle is canonical, checked, and carries the matching encoding.
    pub closed spec fn wf(self) -> bool {
        native_canon(self.native) && check_ok(self.native) && self.repr@ == padded(
            encode_native(self.native),
        )
    }

    /// What well-formedness gives of the value.
    pub proof fn lemma_wf(self)
        requires
            self.wf(),
        ensures
            native_canon(self@),
            check_ok(self@),
            native_wf(self@),
    {
    }
}

impl PartialEq for Num {
    fn eq(&self, other: &Num) -> (r: bool) {
        self.native == other.native
    }
}

impl vstd::std_specs::cmp::PartialEqSpecImpl for Num {
    open spec fn obeys_eq_spec() -> bool {
        true
    }

    open spec fn eq_spec(&self, other: &Num) -> bool {
        self@ == other@
    }
}

impl Eq for Num {

}

/// The arithmetic operations subject to domain promotion.
#[derive(Clone, Copy, Debug, PartialEq, Eq, Structural)]
pub enum BinOp {
    Add,
    Sub,
    Mul,
    Div,
}

/// The exact quotient parts of a quotient-domain operation.
pub open spec fn q_op_parts(op: BinOp, an: int, ad: int, bn: int, bd: int) -> (int, int) {
    match op {
        BinOp::Add => (an * bd + bn * ad, ad * bd),
        BinOp::Sub => (an * bd - bn * ad, ad * bd),
        BinOp::Mul => (an * bn, ad * bd),
        BinOp::Div => (an * bd, ad * bn),
    }
}

/// The complex-domain operation.
pub open spec fn c_op_spec(op: BinOp, a: (Dec, Dec), b: (Dec, Dec)) -> Option<(Dec, Dec)> {
    match op {
        BinOp::Add => c_add_spec(a, b),
        BinOp::Sub => c_sub_spec(a, b),
        BinOp::Mul => c_mul_spec(a, b),
        BinOp::Div => c_div_spec(a, b),
    }
}

/// The real-domain operation.
pub open spec fn r_op_spec(op: BinOp, a: Dec, b: Dec) -> Option<Dec> {
    match op {
        BinOp::Add => add_spec(a, b),
        BinOp::Sub => add_spec(a, neg_spec(b)),
        BinOp::Mul => mul_spec(a, b),
        BinOp::Div => div_spec(a, b),
    }
}

/// Are the quotient parts within the exactly-computable range?
pub open spec fn q_parts_ok(q: (int, int)) -> bool {
    -(Q_PART_MAX as int) <= q.0 <= Q_PART_MAX as int && 0 < q.1 <= Q_PART_MAX as int
}

/// Domain promotion: complex if either operand is complex, else quotient if
/// either is a quotient (both operands exactly converted and within the
/// computable range), else real.  `None` is an undefined or out-of-range
/// case.
pub open spec fn promote_op(op: BinOp, a: Native, b: Native) -> Option<Native> {
    if a is Complex || b is Complex {
        match c_op_spec(op, as_c_spec(a), as_c_spec(b)) {
            Some(c) => Some(Native::Complex(c.0, c.1)),
            None => None,
        }
    } else if a is Quotient || b is Quotient {
        match (as_q_spec(a), as_q_spec(b)) {
            (Some(qa), Some(qb)) => {
                if q_parts_ok(qa) && q_parts_ok(qb) && (op is Div ==> qb.0 != 0) {
                    let parts = q_op_parts(op, qa.0, qa.1, qb.0, qb.1);
                    Some(
                        Native::Quotient(
                            reduce_frac(parts.0, parts.1).0 as i64,
                            reduce_frac(parts.0, parts.1).1 as i64,
                        ),
                    )
                } else {
                    None
                }
            },
            _ => None,
        }
    } else {
        match r_op_spec(op, as_r_spec(a), as_r_spec(b)) {
            Some(d) => Some(Native::Real(d)),
            None => None,
        }
    }
}

/// The message of a failed promoted operation: out-of-range quotient parts
/// are a domain-check error, everything else is undefined.
pub open spec fn bin_err_text(op: BinOp, a: Native, b: Native) -> Seq<char> {
    if a is Complex || b is Complex {
        "undefined number"@
    } else if a is Quotient || b is Quotient {
        match (as_q_spec(a), as_q_spec(b)) {
            (Some(qa), Some(qb)) => if q_parts_ok(qa) && q_parts_ok(qb) && (op is Div && qb.0
                == 0) {
                "undefined number"@
            } else {
                "numerator or denominator beyond 999999"@
            },
            _ => "numerator or denominator beyond 999999"@,
        }
    } else {
        "undefined number"@
    }
}

/// One promoted arithmetic step on native values.
pub fn bin_op(op: BinOp, a: Native, b: Native) -> (r: Result<Native, NativeError>)
    requires
        native_wf(a),
        native_wf(b),
    ensures
        match r {
            Ok(v) => promote_op(op, a, b) == Some(v) && native_wf(v),
            Err(e) => promote_op(op, a, b) is None && e.0@ == bin_err_text(op, a, b),
        },
{
    if matches!(a, Native::Complex(_, _)) || matches!(b, Native::Complex(_, _)) {
        let ca = a.as_c();
        let cb = b.as_c();
        let res = match op {
            BinOp::Add => c_add(ca, cb),
            BinOp::Sub => c_sub(ca, cb),
            BinOp::Mul => c_mul(ca, cb),
            BinOp::Div => c_div(ca, cb),
        };
        match res {
            Some(c) => Ok(Native::Complex(c.0, c.1)),
            None => Err(NativeError(undefined_msg())),
        }
    } else if matches!(a, Native::Quotient(_, _)) || matches!(b, Native::Quotient(_, _)) {
        let qa = a.as_q();
        let qb = b.as_q();
        match (qa, qb) {
            (Ok(qa), Ok(qb)) => {
                if -Q_PART_MAX <= qa.0 && qa.0 <= Q_PART_MAX && 0 < qa.1 && qa.1 <= Q_PART_MAX
                    && -Q_PART_MAX <= qb.0 && qb.0 <= Q_PART_MAX && 0 < qb.1 && qb.1
                    <= Q_PART_MAX {
                    if matches!(op, BinOp::Div) && qb.0 == 0 {
                        return Err(NativeError(undefined_msg()));
                    }
                    let q = match op {
                        BinOp::Add => q_add(qa.0, qa.1, qb.0, qb.1),
                        BinOp::Sub => q_sub(qa.0, qa.1, qb.0, qb.1),
                        BinOp::Mul => q_mul(qa.0, qa.1, qb.0, qb.1),
                        BinOp::Div => q_div(qa.0, qa.1, qb.0, qb.1),
                    };
                    Ok(Native::Quotient(q.0, q.1))
                } else {
                    Err(NativeError(numerator_overflow_msg()))
                }
            },
            (Err(e), _) => Err(e),
            (_, Err(e)) => Err(e),
        }
    } else {
        let ra = a.as_r();
        let rb = b.as_r();
        let res = match op {
            BinOp::Add => dec_add(ra, rb),
            BinOp::Sub => dec_sub(ra, rb),
            BinOp::Mul => dec_mul(ra, rb),
            BinOp::Div => dec_div(ra, rb),
        };
        match res {
            Some(d) => Ok(Native::Real(d)),
            None => Err(NativeError(undefined_msg())),
        }
    }
}

/// Parsing followed by the domain check and canonicalization: what
/// [`Num::decode`] yields.
pub open spec fn decode_spec(s: Seq<u8>) -> Option<Native> {
    match parse_native_spec(s) {
        Some(v) => if check_ok(v) {
            Some(fix_spec(v))
        } else {
            None
        },
        None => None,
    }
}

impl Num {
    /// Check, canonicalize and encode a native value.
    pub fn from_native(v: Native) -> (r: Result<Num, NativeError>)
        requires
            native_wf(v),
        ensures
            r is Ok <==> check_ok(v),
            r matches Ok(out) ==> out@ == fix_spec(v) && out.wf(),
            r matches Err(e) ==> e.0@ == "numerator or denominator beyond 999999"@,
    {
        match v.check() {
            Ok(v) => {
                let f = v.fix();
                proof {
                    lemma_fix_canon(v);
                    lemma_fix_check(v);
                }
                let repr = repr_native(f);
                Ok(Num { native: f, repr })
            },
            Err(e) => Err(e),
        }
    }

    /// The canonical zero.
    pub fn zero() -> (r: Num)
        ensures
            r@ == Native::Integer(0),
            r.wf(),
    {
        let repr = repr_native(Native::Integer(0));
        Num { native: Native::Integer(0), repr }
    }

    /// The positive infinity.
    pub fn p_inf() -> (r: Num)
        ensures
            r@ == Native::Real(Dec::Inf { neg: false }),
            r.wf(),
    {
        let v = Native::Real(Dec::Inf { neg: false });
        let repr = repr_native(v);
        Num { native: v, repr }
    }

    /// The negative infinity.
    pub fn m_inf() -> (r: Num)
        ensures
            r@ == Native::Real(Dec::Inf { neg: true }),
            r.wf(),
    {
        let v = Native::Real(Dec::Inf { neg: true });
        let repr = repr_native(v);
        Num { native: v, repr }
    }

    /// The canonical form of an integer.
    pub fn from_z(z: i64) -> (r: Num)
        ensures
            r@ == Native::Integer(z),
            r.wf(),
    {
        let repr = repr_native(Native::Integer(z));
        Num { native: Native::Integer(z), repr }
    }

    /// The canonical form of a decimal real.
    pub fn from_r(d: Dec) -> (r: Num)
        requires
            dec_wf(d),
        ensures
            r@ == fix_spec(Native::Real(d)),
            r.wf(),
    {
        let f = crate::native::fix_real(d);
        proof {
            lemma_fix_canon(Native::Real(d));
        }
        let repr = repr_native(f);
        Num { native: f, repr }
    }

    /// The canonical form of a quotient (reduced on the way in).
    pub fn from_q(numer: i64, denom: i64) -> (r: Result<Num, NativeError>)
        requires
            denom != 0,
            -Q_PART_MAX <= numer <= Q_PART_MAX,
            -Q_PART_MAX <= denom <= Q_PART_MAX,
        ensures
            r is Ok <==> check_ok(
                Native::Quotient(
                    reduce_frac(numer as int, denom as int).0 as i64,
                    reduce_frac(numer as int, denom as int).1 as i64,
                ),
            ),
            r matches Ok(out) ==> out@ == fix_spec(
                Native::Quotient(
                    reduce_frac(numer as int, denom as int).0 as i64,
                    reduce_frac(numer as int, denom as int).1 as i64,
                ),
            ) && out.wf(),
            r matches Err(e) ==> e.0@ == "numerator or denominator beyond 999999"@,
    {
        let q = q_new(numer, denom);
        Num::from_native(Native::Quotient(q.0, q.1))
    }

    /// The canonical form of a complex pair.
    pub fn from_c(re: Dec, im: Dec) -> (r: Num)
        requires
            dec_wf(re),
            dec_wf(im),
        ensures
            r@ == fix_spec(Native::Complex(re, im)),
            r.wf(),
    {
        let v = Native::Complex(re, im);
        let f = v.fix();
        proof {
            lemma_fix_canon(v);
        }
        let repr = repr_native(f);
        Num { native: f, repr }
    }

    /// The value the handle holds.
    pub fn to_native(&self) -> (r: Native)
        requires
            self.wf(),
        ensures
            r == self@,
            native_wf(r),
    {
        proof {
            self.lemma_wf();
        }
        self.native
    }

    /// The canonical encoding of the value.
    pub fn repr(&self) -> (r: Repr)
        requires
            self.wf(),
        ensures
            r@ == padded(encode_native(self@)),
    {
        self.repr
    }

    /// Parse a number; a malformed text or one failing the domain check is
    /// a recoverable error.
    pub fn try_decode(s: &str) -> (r: Result<Num, NativeError>)
        ensures
            match r {
                Ok(out) => decode_spec(s.spec_bytes()) == Some(out@) && out.wf(),
                Err(_) => decode_spec(s.spec_bytes()) is None,
            },
    {
        let bs = str_bytes(s);
        match parse_native(&bs) {
            Ok(v) => Num::from_native(v),
            Err(e) => Err(e),
        }
    }

    /// Parse a number known to be well-formed (the canonical encodings and
    /// the committed input texts are).
    pub fn decode(s: &str) -> (r: Num)
        requires
            decode_spec(s.spec_bytes()) is Some,
        ensures
            Some(r@) == decode_spec(s.spec_bytes()),
            r.wf(),
    {
        match Num::try_decode(s) {
            Ok(n) => n,
            Err(_) => {
                proof {
                    assert(false);
                }
                Num::zero()
            },
        }
    }

    /// Promoted addition.
    pub fn add_num(self, rhs: Num) -> (r: Result<Num, NativeError>)
        requires
            self.wf(),
            rhs.wf(),
        ensures
            match r {
                Ok(out) => promote_op(BinOp::Add, self@, rhs@) matches Some(v) && check_ok(v)
                    && out@ == fix_spec(v) && out.wf(),
                Err(_) => promote_op(BinOp::Add, self@, rhs@) is None || (promote_op(
                    BinOp::Add,
                    self@,
                    rhs@,
                ) matches Some(v) && !check_ok(v)),
            },
    {
        self.apply_op(BinOp::Add, rhs)
    }

    /// Promoted subtraction.
    pub fn sub_num(self, rhs: Num) -> (r: Result<Num, NativeError>)
        requires
            self.wf(),
            rhs.wf(),
        ensures
            match r {
                Ok(out) => promote_op(BinOp::Sub, self@, rhs@) matches Some(v) && check_ok(v)
                    && out@ == fix_spec(v) && out.wf(),
                Err(_) => promote_op(BinOp::Sub, self@, rhs@) is None || (promote_op(
                    BinOp::Sub,
                    self@,
                    rhs@,
                ) matches Some(v) && !check_ok(v)),
            },
    {
        self.apply_op(BinOp::Sub, rhs)
    }

    /// Promoted multiplication.
    pub fn mul_num(self, rhs: Num) -> (r: Result<Num, NativeError>)
        requires
            self.wf(),
            rhs.wf(),
        ensures
            match r {
                Ok(out) => promote_op(BinOp::Mul, self@, rhs@) matches Some(v) && check_ok(v)
                    && out@ == fix_spec(v) && out.wf(),
                Err(_) => promote_op(BinOp::Mul, self@, rhs@) is None || (promote_op(
                    BinOp::Mul,
                    self@,
                    rhs@,
                ) matches Some(v) && !check_ok(v)),
            },
    {
        self.apply_op(BinOp::Mul, rhs)
    }

    /// Promoted division.
    pub fn div_num(self, rhs: Num) -> (r: Result<Num, NativeError>)
        requires
            self.wf(),
            rhs.wf(),
        ensures
            match r {
                Ok(out) => promote_op(BinOp::Div, self@, rhs@) matches Some(v) && check_ok(v)
                    && out@ == fix_spec(v) && out.wf(),
                Err(_) => promote_op(BinOp::Div, self@, rhs@) is None || (promote_op(
                    BinOp::Div,
                    self@,
                    rhs@,
                ) matches Some(v) && !check_ok(v)),
            },
    {
        self.apply_op(BinOp::Div, rhs)
    }

    /// One promoted operation, canonicalized and checked.
    pub fn apply_op(self, op: BinOp, rhs: Num) -> (r: Result<Num, NativeError>)
        requires
            self.wf(),
            rhs.wf(),
        ensures
            match r {
                Ok(out) => promote_op(op, self@, rhs@) matches Some(v) && check_ok(v) && out@
                    == fix_spec(v) && out.wf(),
                Err(e) => (promote_op(op, self@, rhs@) is None || (promote_op(op, self@, rhs@)
                    matches Some(v) && !check_ok(v))) && e.0@ == (if promote_op(op, self@, rhs@)
                    is None {
                    bin_err_text(op, self@, rhs@)
                } else {
                    "numerator or denominator beyond 999999"@
                }),
            },
    {
        proof {
            self.lemma_wf();
            rhs.lemma_wf();
        }
        match bin_op(op, self.native, rhs.native) {
            Ok(v) => Num::from_native(v),
            Err(e) => Err(e),
        }
    }
}

} // verus!

verus! {

/// The decimal one.
pub open spec fn one_dec() -> Dec {
    Dec::Fin { neg: false, m: MANT_MIN, e: 0 }
}

/// Sign flip, domain by domain (the minimal integer stays itself).
pub open spec fn chs_spec(v: Native) -> Native {
    match v {
        Native::Integer(z) => Native::Integer(
            if z == i64::MIN {
                z
            } else {
                (-(z as int)) as i64
            },
        ),
        Native::Real(d) => Native::Real(neg_spec(d)),
        Native::Quotient(n, d) => Native::Quotient(
            if n == i64::MIN {
                n
            } else {
                (-(n as int)) as i64
            },
            d,
        ),
        Native::Complex(re, im) => Native::Complex(neg_spec(re), neg_spec(im)),
    }
}

/// Magnitude, domain by domain (a complex value takes its modulus; the
/// minimal integer saturates).
pub open spec fn abs_spec(v: Native) -> Native {
    match v {
        Native::Integer(z) => Native::Integer(
            if z == i64::MIN {
                i64::MAX
            } else {
                abs_int(z as int) as i64
            },
        ),
        Native::Real(d) => Native::Real(abs_dec_spec(d)),
        Native::Quotient(n, d) => Native::Quotient(
            if n == i64::MIN {
                n
            } else {
                abs_int(n as int) as i64
            },
            d,
        ),
        Native::Complex(re, im) => Native::Real(crate::cplx::hypot_spec(re, im)),
    }
}

/// The magnitude of a decimal.
pub open spec fn abs_dec_spec(d: Dec) -> Dec {
    match d {
        Dec::Zero => Dec::Zero,
        Dec::Fin { neg, m, e } => Dec::Fin { neg: false, m, e },
        Dec::Inf { .. } => Dec::Inf { neg: false },
    }
}

/// Integer part toward zero, domain by domain (a complex value takes its
/// modulus first).
pub open spec fn int_spec(v: Native) -> Native {
    match v {
        Native::Integer(_) => v,
        Native::Real(d) => Native::Real(trunc_spec(d)),
        Native::Quotient(n, d) => Native::Quotient(q_trunc_val(n as int, d as int) as i64, 1),
        Native::Complex(re, im) => Native::Real(trunc_spec(crate::cplx::hypot_spec(re, im))),
    }
}

/// Truncation toward zero of a quotient.
pub open spec fn q_trunc_val(n: int, d: int) -> int
    recommends
        d > 0,
{
    if n >= 0 {
        n / d
    } else {
        -((-n) / d)
    }
}

/// Truncated remainder of a quotient (sign of the numerator).
pub open spec fn q_rem_val(n: int, d: int) -> int
    recommends
        d > 0,
{
    if n >= 0 {
        n % d
    } else {
        -((-n) % d)
    }
}

/// Nearest integer, ties away from zero, domain by domain.
pub open spec fn round_num_spec(v: Native) -> Native {
    match v {
        Native::Integer(_) => v,
        Native::Real(d) => Native::Real(round_spec(d)),
        Native::Quotient(n, d) => Native::Quotient(
            crate::native::q_round_val(n as int, d as int) as i64,
            1,
        ),
        Native::Complex(re, im) => Native::Real(round_spec(crate::cplx::hypot_spec(re, im))),
    }
}

/// Fractional part, domain by domain; an infinity has none.
pub open spec fn frac_spec(v: Native) -> Option<Native> {
    match v {
        Native::Integer(_) => Some(Native::Integer(0)),
        Native::Real(d) => match fract_spec(d) {
            Some(x) => Some(Native::Real(x)),
            None => None,
        },
        Native::Quotient(n, d) => {
            let rm = q_rem_val(n as int, d as int);
            Some(
                Native::Quotient(
                    reduce_frac(rm, d as int).0 as i64,
                    reduce_frac(rm, d as int).1 as i64,
                ),
            )
        },
        Native::Complex(re, im) => match fract_spec(crate::cplx::hypot_spec(re, im)) {
            Some(x) => Some(Native::Real(x)),
            None => None,
        },
    }
}

/// Reciprocal, domain by domain: an integer is left unchanged, a quotient is
/// flipped, a real or complex value divides one.
pub open spec fn recip_spec(v: Native) -> Option<Native> {
    match v {
        Native::Integer(_) => Some(v),
        Native::Real(d) => match div_spec(one_dec(), d) {
            Some(x) => Some(Native::Real(x)),
            None => None,
        },
        Native::Quotient(n, d) => Some(
            Native::Quotient(
                reduce_frac(d as int, n as int).0 as i64,
                reduce_frac(d as int, n as int).1 as i64,
            ),
        ),
        Native::Complex(re, im) => match c_div_spec((one_dec(), Dec::Zero), (re, im)) {
            Some(c) => Some(Native::Complex(c.0, c.1)),
            None => None,
        },
    }
}

impl Num {
    /// Change the sign.
    pub fn chs(self) -> (r: Result<Num, NativeError>)
        requires
            self.wf(),
        ensures
            r matches Ok(out) && out@ == fix_spec(chs_spec(self@)) && out.wf(),
            check_ok(chs_spec(self@)),
    {
        proof {
            self.lemma_wf();
        }
        let v = match self.native {
            Native::Integer(z) => Native::Integer(
                if z == i64::MIN {
                    z
                } else {
                    -z
                },
            ),
            Native::Real(d) => Native::Real(dec_neg(d)),
            Native::Quotient(n, d) => Native::Quotient(
                if n == i64::MIN {
                    n
                } else {
                    -n
                },
                d,
            ),
            Native::Complex(re, im) => Native::Complex(dec_neg(re), dec_neg(im)),
        };
        Num::from_native(v)
    }

    /// The magnitude.
    pub fn abs(self) -> (r: Result<Num, NativeError>)
        requires
            self.wf(),
        ensures
            r matches Ok(out) && out@ == fix_spec(abs_spec(self@)) && out.wf(),
            check_ok(abs_spec(self@)),
    {
        proof {
            self.lemma_wf();
        }
        let v = match self.native {
            Native::Integer(z) => Native::Integer(
                if z == i64::MIN {
                    i64::MAX
                } else if z < 0 {
                    -z
                } else {
                    z
                },
            ),
            Native::Real(d) => Native::Real(
                match d {
                    Dec::Zero => Dec::Zero,
                    Dec::Fin { neg, m, e } => Dec::Fin { neg: false, m, e },
                    Dec::Inf { .. } => Dec::Inf { neg: false },
                },
            ),
            Native::Quotient(n, d) => Native::Quotient(
                if n == i64::MIN {
                    n
                } else if n < 0 {
                    -n
                } else {
                    n
                },
                d,
            ),
            Native::Complex(re, im) => Native::Real(crate::cplx::hypot(re, im)),
        };
        Num::from_native(v)
    }

    /// The integer part, toward zero.
    pub fn int_part(self) -> (r: Result<Num, NativeError>)
        requires
            self.wf(),
        ensures
            r matches Ok(out) && out@ == fix_spec(int_spec(self@)) && out.wf(),
            check_ok(int_spec(self@)),
    {
        proof {
            self.lemma_wf();
            lemma_gcd_one_pub();
        }
        let v = match self.native {
            Native::Integer(_) => self.native,
            Native::Real(d) => Native::Real(dec_trunc(d)),
            Native::Quotient(n, d) => Native::Quotient(q_trunc(n, d), 1),
            Native::Complex(re, im) => Native::Real(dec_trunc(crate::cplx::hypot(re, im))),
        };
        proof {
            if self.native is Quotient {
                lemma_gcd_one(abs_int(q_trunc_val(self.native->Quotient_0 as int, self.native->Quotient_1 as int)) as nat);
            }
        }
        Num::from_native(v)
    }

    /// The nearest integer, ties away from zero.
    pub fn round(self) -> (r: Result<Num, NativeError>)
        requires
            self.wf(),
        ensures
            r matches Ok(out) && out@ == fix_spec(round_num_spec(self@)) && out.wf(),
            check_ok(round_num_spec(self@)),
    {
        proof {
            self.lemma_wf();
        }
        let v = match self.native {
            Native::Integer(_) => self.native,
            Native::Real(d) => Native::Real(dec_round(d)),
            Native::Quotient(n, d) => Native::Quotient(q_round(n, d), 1),
            Native::Complex(re, im) => Native::Real(dec_round(crate::cplx::hypot(re, im))),
        };
        proof {
            if self.native is Quotient {
                let n = self.native->Quotient_0 as int;
                let d = self.native->Quotient_1 as int;
                lemma_gcd_one(abs_int(crate::native::q_round_val(n, d)) as nat);
                assert(abs_int(n) / d * 2 <= abs_int(n)) by (nonlinear_arith)
                    requires
                        d >= 2,
                        abs_int(n) >= 0,
                ;
            }
        }
        Num::from_native(v)
    }

    /// The fractional part; an infinity has none.
    pub fn frac(self) -> (r: Result<Num, NativeError>)
        requires
            self.wf(),
        ensures
            match r {
                Ok(out) => frac_spec(self@) matches Some(v) && check_ok(v) && out@ == fix_spec(v)
                    && out.wf(),
                Err(e) => (frac_spec(self@) is None || (frac_spec(self@) matches Some(v)
                    && !check_ok(v))) && e.0@ == (if self@ is Quotient {
                    "numerator or denominator beyond 999999"@
                } else {
                    "undefined number"@
                }),
            },
    {
        proof {
            self.lemma_wf();
        }
        match self.native {
            Native::Integer(_) => Ok(Num::zero()),
            Native::Real(d) => {
                match dec_fract(d) {
                    Some(x) => Num::from_native(Native::Real(x)),
                    None => Err(NativeError(undefined_msg())),
                }
            },
            Native::Quotient(n, d) => {
                let rm = q_rem(n, d);
                let q = q_new(rm, d);
                Num::from_native(Native::Quotient(q.0, q.1))
            },
            Native::Complex(re, im) => {
                match dec_fract(crate::cplx::hypot(re, im)) {
                    Some(x) => Num::from_native(Native::Real(x)),
                    None => Err(NativeError(undefined_msg())),
                }
            },
        }
    }

    /// The reciprocal (of an integer: the integer itself).
    pub fn recip(self) -> (r: Result<Num, NativeError>)
        requires
            self.wf(),
        ensures
            match r {
                Ok(out) => recip_spec(self@) matches Some(v) && check_ok(v) && out@ == fix_spec(v)
                    && out.wf(),
                Err(e) => (recip_spec(self@) is None || (recip_spec(self@) matches Some(v)
                    && !check_ok(v))) && e.0@ == (if self@ is Quotient {
                    "numerator or denominator beyond 999999"@
                } else {
                    "undefined number"@
                }),
            },
    {
        proof {
            self.lemma_wf();
        }
        match self.native {
            Native::Integer(_) => Ok(self),
            Native::Real(d) => {
                match dec_div(one(), d) {
                    Some(x) => Num::from_native(Native::Real(x)),
                    None => Err(NativeError(undefined_msg())),
                }
            },
            Native::Quotient(n, d) => {
                let q = q_new(d, n);
                Num::from_native(Native::Quotient(q.0, q.1))
            },
            Native::Complex(re, im) => {
                match crate::cplx::c_div((one(), Dec::Zero), (re, im)) {
                    Some(c) => Num::from_native(Native::Complex(c.0, c.1)),
                    None => Err(NativeError(undefined_msg())),
                }
            },
        }
    }

    /// The canonical integer conversion.
    pub fn to_z(&self) -> (r: Num)
        requires
            self.wf(),
        ensures
            r@ == fix_spec(Native::Integer(crate::native::as_z_spec(self@) as i64)),
            r.wf(),
    {
        proof {
            self.lemma_wf();
        }
        Num::from_z(self.native.as_z())
    }

    /// The canonical real conversion.
    pub fn to_r(&self) -> (r: Num)
        requires
            self.wf(),
        ensures
            r@ == fix_spec(Native::Real(as_r_spec(self@))),
            r.wf(),
    {
        proof {
            self.lemma_wf();
        }
        Num::from_r(self.native.as_r())
    }

    /// The canonical quotient conversion; a real outside the exactly
    /// representable range, or one whose parts fail the domain check, is an
    /// error.
    pub fn to_q(&self) -> (r: Result<Num, NativeError>)
        requires
            self.wf(),
        ensures
            r is Ok <==> (as_q_spec(self@) matches Some(q) && check_ok(
                Native::Quotient(q.0 as i64, q.1 as i64),
            )),
            r matches Ok(out) ==> (as_q_spec(self@) matches Some(q) && out@ == fix_spec(
                Native::Quotient(q.0 as i64, q.1 as i64),
            ) && out.wf()),
            r matches Err(e) ==> e.0@ == "numerator or denominator beyond 999999"@,
    {
        proof {
            self.lemma_wf();
        }
        match self.native.as_q() {
            Ok(q) => Num::from_native(Native::Quotient(q.0, q.1)),
            Err(e) => Err(e),
        }
    }

    /// The canonical complex conversion.
    pub fn to_c(&self) -> (r: Num)
        requires
            self.wf(),
        ensures
            r@ == fix_spec(Native::Complex(as_c_spec(self@).0, as_c_spec(self@).1)),
            r.wf(),
    {
        proof {
            self.lemma_wf();
        }
        let c = self.native.as_c();
        Num::from_c(c.0, c.1)
    }

    /// Which domain the value lies in.
    pub fn is_z(&self) -> (r: bool)
        ensures
            r == (self@ is Integer),
    {
        matches!(self.native, Native::Integer(_))
    }

    /// Is the value a (non-integral) real?
    pub fn is_r(&self) -> (r: bool)
        ensures
            r == (self@ is Real),
    {
        matches!(self.native, Native::Real(_))
    }

    /// Is the value a proper quotient?
    pub fn is_q(&self) -> (r: bool)
        ensures
            r == (self@ is Quotient),
    {
        matches!(self.native, Native::Quotient(_, _))
    }

    /// Is the value complex?
    pub fn is_c(&self) -> (r: bool)
        ensures
            r == (self@ is Complex),
    {
        matches!(self.native, Native::Complex(_, _))
    }
}

/// The decimal one.
pub fn one() -> (r: Dec)
    ensures
        r == one_dec(),
        dec_wf(r),
{
    Dec::Fin { neg: false, m: MANT_MIN, e: 0 }
}

proof fn lemma_gcd_one_pub()
    ensures
        forall|a: nat| #[trigger] gcd_nat(a, 1) == 1,
{
    assert forall|a: nat| #[trigger] gcd_nat(a, 1) == 1 by {
        lemma_gcd_one(a);
    }
}

} // verus!
