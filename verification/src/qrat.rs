//! Exact rational pairs.  A quotient is held as `(numerator, denominator)`
//! in canonical reduced form: positive denominator, no common factor.  The
//! reductions themselves are done by the `num_rational` crate, whose results
//! are pinned to the mathematical reduced form stated by [`reduce_frac`].

use vstd::prelude::*;

verus! {

/// Magnitude of an integer.
pub open spec fn abs_int(n: int) -> int {
    if n < 0 {
        -n
    } else {
        n
    }
}

/// Greatest common divisor of two non-negative integers.
pub open spec fn gcd_nat(a: nat, b: nat) -> nat
    decreases b,
{
    if b == 0 {
        a
    } else {
        gcd_nat(b, a % b)
    }
}

/// The canonical reduced form of the rational `n / d` (`d != 0`): both parts
/// divided by their gcd, the sign carried by the numerator.
pub open spec fn reduce_frac(n: int, d: int) -> (int, int)
    recommends
        d != 0,
{
    let g = gcd_nat(abs_int(n) as nat, abs_int(d) as nat) as int;
    let n1 = n / g;
    let d1 = d / g;
    if d1 < 0 {
        (-n1, -d1)
    } else {
        (n1, d1)
    }
}

/// Bound under which the wrapped `num_rational` calls cannot overflow.
pub const Q_PART_MAX: i64 = 1_000_000;

/// Bound on the parts handed to [`q_new`].
pub const Q_NEW_MAX: i64 = 1_000_000_000_000_000;

/// Relies on `num_rational::Ratio::new`, which divides both parts by their
/// gcd and keeps the denominator positive.
#[verifier::external_body]
pub fn q_new(n: i64, d: i64) -> (r: (i64, i64))
    requires
        d != 0,
        -Q_NEW_MAX <= n <= Q_NEW_MAX,
        -Q_NEW_MAX <= d <= Q_NEW_MAX,
    ensures
        (r.0 as int, r.1 as int) == reduce_frac(n as int, d as int),
        r.1 > 0,
        gcd_nat(abs_int(r.0 as int) as nat, r.1 as nat) == 1,
{
    let q = num_rational::Ratio::new(n, d);
    (*q.numer(), *q.denom())
}

/// Relies on `num_rational`'s `Add` for `Ratio<i64>`: the reduced exact sum.
#[verifier::external_body]
pub fn q_add(an: i64, ad: i64, bn: i64, bd: i64) -> (r: (i64, i64))
    requires
        0 < ad <= Q_PART_MAX,
        0 < bd <= Q_PART_MAX,
        -Q_PART_MAX <= an <= Q_PART_MAX,
        -Q_PART_MAX <= bn <= Q_PART_MAX,
    ensures
        (r.0 as int, r.1 as int) == reduce_frac(an * bd + bn * ad, ad * bd),
        r.1 > 0,
        gcd_nat(abs_int(r.0 as int) as nat, r.1 as nat) == 1,
{
    let q = num_rational::Ratio::new(an, ad) + num_rational::Ratio::new(bn, bd);
    (*q.numer(), *q.denom())
}

/// Relies on `num_rational`'s `Sub` for `Ratio<i64>`: the reduced exact
/// difference.
#[verifier::external_body]
pub fn q_sub(an: i64, ad: i64, bn: i64, bd: i64) -> (r: (i64, i64))
    requires
        0 < ad <= Q_PART_MAX,
        0 < bd <= Q_PART_MAX,
        -Q_PART_MAX <= an <= Q_PART_MAX,
        -Q_PART_MAX <= bn <= Q_PART_MAX,
    ensures
        (r.0 as int, r.1 as int) == reduce_frac(an * bd - bn * ad, ad * bd),
        r.1 > 0,
        gcd_nat(abs_int(r.0 as int) as nat, r.1 as nat) == 1,
{
    let q = num_rational::Ratio::new(an, ad) - num_rational::Ratio::new(bn, bd);
    (*q.numer(), *q.denom())
}

/// Relies on `num_rational`'s `Mul` for `Ratio<i64>`: the reduced exact
/// product.
#[verifier::external_body]
pub fn q_mul(an: i64, ad: i64, bn: i64, bd: i64) -> (r: (i64, i64))
    requires
        0 < ad <= Q_PART_MAX,
        0 < bd <= Q_PART_MAX,
        -Q_PART_MAX <= an <= Q_PART_MAX,
        -Q_PART_MAX <= bn <= Q_PART_MAX,
    ensures
        (r.0 as int, r.1 as int) == reduce_frac(an * bn, ad * bd),
        r.1 > 0,
        gcd_nat(abs_int(r.0 as int) as nat, r.1 as nat) == 1,
{
    let q = num_rational::Ratio::new(an, ad) * num_rational::Ratio::new(bn, bd);
    (*q.numer(), *q.denom())
}

/// Relies on `num_rational`'s `Div` for `Ratio<i64>`: the reduced exact
/// quotient (the divisor must be nonzero).
#[verifier::external_body]
pub fn q_div(an: i64, ad: i64, bn: i64, bd: i64) -> (r: (i64, i64))
    requires
        0 < ad <= Q_PART_MAX,
        0 < bd <= Q_PART_MAX,
        -Q_PART_MAX <= an <= Q_PART_MAX,
        -Q_PART_MAX <= bn <= Q_PART_MAX,
        bn != 0,
    ensures
        (r.0 as int, r.1 as int) == reduce_frac(an * bd, ad * bn),
        r.1 > 0,
        gcd_nat(abs_int(r.0 as int) as nat, r.1 as nat) == 1,
{
    let q = num_rational::Ratio::new(an, ad) / num_rational::Ratio::new(bn, bd);
    (*q.numer(), *q.denom())
}

/// The reciprocal of a reduced quotient: swap the parts, sign to the numerator.
pub fn q_recip(n: i64, d: i64) -> (r: (i64, i64))
    requires
        0 < d <= Q_PART_MAX,
        -Q_PART_MAX <= n <= Q_PART_MAX,
        n != 0,
    ensures
        r.0 as int == (if n < 0 {
            -(d as int)
        } else {
            d as int
        }),
        r.1 as int == (if n < 0 {
            -(n as int)
        } else {
            n as int
        }),
        r.1 > 0,
{
    if n < 0 {
        (-d, -n)
    } else {
        (d, n)
    }
}

/// Integer part of a reduced quotient, truncated toward zero.
pub fn q_trunc(n: i64, d: i64) -> (r: i64)
    requires
        0 < d,
    ensures
        r as int == (if n >= 0 {
            n as int / d as int
        } else {
            -((-(n as int)) / d as int)
        }),
{
    if n >= 0 {
        n / d
    } else {
        let m = -(n as i128);
        proof {
            assert(m / (d as i128) <= m) by (nonlinear_arith)
                requires
                    d as i128 >= 1,
                    m >= 0,
            ;
        }
        (-(m / d as i128)) as i64
    }
}

/// Remainder of a reduced quotient after truncation (sign of the numerator).
pub fn q_rem(n: i64, d: i64) -> (r: i64)
    requires
        0 < d,
    ensures
        r as int == (if n >= 0 {
            n as int % d as int
        } else {
            -((-(n as int)) % d as int)
        }),
{
    if n >= 0 {
        n % d
    } else {
        let m = -(n as i128);
        (-(m % d as i128)) as i64
    }
}

/// Nearest integer to a reduced quotient, ties away from zero.
pub fn q_round(n: i64, d: i64) -> (r: i64)
    requires
        0 < d,
    ensures
        r as int == (if n >= 0 {
            n as int / d as int + (if 2 * (n as int % d as int) >= d as int {
                1int
            } else {
                0int
            })
        } else {
            -((-(n as int)) / d as int + (if 2 * ((-(n as int)) % d as int) >= d as int {
                1int
            } else {
                0int
            }))
        }),
{
    if n >= 0 {
        let q = n / d;
        let rm = n % d;
        proof {
            assert(q <= n && (rm >= 1 ==> q < n)) by (nonlinear_arith)
                requires
                    d >= 1,
                    n >= 0,
                    q == n / d,
                    rm == n % d,
            ;
        }
        if 2 * (rm as i128) >= d as i128 {
            q + 1
        } else {
            q
        }
    } else {
        let m = -(n as i128);
        let q = m / d as i128;
        let rm = m % d as i128;
        proof {
            assert(q <= m && (rm >= 1 ==> q < m)) by (nonlinear_arith)
                requires
                    d as i128 >= 1,
                    m >= 0,
                    q == m / (d as i128),
                    rm == m % (d as i128),
            ;
        }
        if 2 * rm >= d as i128 {
            (-(q + 1)) as i64
        } else {
            (-q) as i64
        }
    }
}

} // verus!
