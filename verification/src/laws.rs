//! The library's general laws, stated and proved once: canonicalization is
//! idempotent, canonical encodings stay within the precision bound, domain
//! promotion is exact on exact operands, and decoding inverts the canonical
//! encoding of integers and quotients.

use crate::dec::{n_digits, Dec};
use crate::native::{check_ok, fix_spec, native_canon, native_wf, Native};
use crate::num::{promote_op, BinOp};
use crate::parse::{find2_spec, fold_i64_digits, parse_i64_spec, parse_native_spec};
use crate::qrat::{gcd_nat, reduce_frac};
use crate::repr::{encode_native, strip0};
use crate::text::{digits_of, int_text};
use vstd::prelude::*;

verus! {

/// Canonicalization is idempotent: fixing a fixed value changes nothing.
pub proof fn lemma_fix_idempotent(v: Native)
    requires
        native_wf(v),
    ensures
        fix_spec(fix_spec(v)) == fix_spec(v),
{
    crate::native::lemma_fix_canon(v);
    lemma_fix_canon_identity(fix_spec(v));
}

/// A canonical value is a fixed point of canonicalization.
pub proof fn lemma_fix_canon_identity(v: Native)
    requires
        native_canon(v),
    ensures
        fix_spec(v) == v,
{
}

/// Precision bound: the canonical encoding of a real keeps at most 14
/// significant mantissa digits, and its decimal exponent stays strictly
/// between -300 and 300.
pub proof fn lemma_precision_bound(d: Dec)
    requires
        d is Fin,
        crate::dec::dec_wf(d),
    ensures
        digits_of(strip0(d->m as int)).len() <= 14,
        -300 < d->e < 300,
{
    let m = d->m as int;
    crate::dec::lemma_pow10_values();
    crate::repr::lemma_strip0_bounds(m);
    crate::repr::lemma_digits_of_len(strip0(m));
    crate::dec::lemma_n_digits_bounds(strip0(m));
    if n_digits(strip0(m)) > 14 {
        crate::dec::lemma_pow10_mono(14, (n_digits(strip0(m)) - 1) as nat);
    }
}

/// Domain promotion is exactness-preserving when both operands are exact:
/// an integer plus a reduced quotient (both within the computable range) is
/// exactly the reduced sum of the fractions, nothing rounded.
pub proof fn lemma_promotion_exact(z: i64, n: i64, d: i64)
    requires
        -1_000_000 <= z <= 1_000_000,
        -1_000_000 <= n <= 1_000_000,
        0 < d <= 1_000_000,
    ensures
        promote_op(BinOp::Add, Native::Integer(z), Native::Quotient(n, d)) == Some(
            Native::Quotient(
                reduce_frac(z * d + n, d as int).0 as i64,
                reduce_frac(z * d + n, d as int).1 as i64,
            ),
        ),
{
    let a = Native::Integer(z);
    let b = Native::Quotient(n, d);
    assert(crate::native::as_q_spec(a) == Some((z as int, 1int)));
    assert(crate::native::as_q_spec(b) == Some((n as int, d as int)));
    assert(crate::num::q_op_parts(BinOp::Add, z as int, 1, n as int, d as int) == (
        z * d + n * 1,
        1 * d,
    ));
    assert(z * d + n * 1 == z * d + n) by (nonlinear_arith);
    assert(1 * d == d) by (nonlinear_arith);
}

/// The anchoring instance: two plus one half is five halves.
#[verifier::rlimit(100)]
#[verifier::spinoff_prover]
pub proof fn lemma_two_plus_half()
    ensures
        promote_op(BinOp::Add, Native::Integer(2), Native::Quotient(1, 2)) == Some(
            Native::Quotient(5, 2),
        ),
{
    lemma_promotion_exact(2, 1, 2);
    assert(2int * 2 + 1 == 5);
    assert(gcd_nat(5, 2) == 1) by {
        reveal_with_fuel(gcd_nat, 4);
    }
    assert(crate::qrat::abs_int(5) == 5 && crate::qrat::abs_int(2) == 2);
    assert(5int / 1int == 5 && 2int / 1int == 2) by (nonlinear_arith);
    assert(reduce_frac(5, 2) == (5int, 2int));
}

/// Round trip on infinities: decoding the canonical encoding of a signed
/// infinity yields the infinity back.
pub proof fn lemma_round_trip_infinite(neg: bool)
    ensures
        parse_native_spec(encode_native(Native::Real(Dec::Inf { neg }))) == Some(
            Native::Real(Dec::Inf { neg }),
        ),
{
    let s = encode_native(Native::Real(Dec::Inf { neg }));
    assert(s =~= (if neg {
        seq![45u8, 111u8, 111u8]
    } else {
        seq![43u8, 111u8, 111u8]
    }));
}

/// Folding the decimal digits of a value reads the value back.
proof fn lemma_fold_digits(m: int)
    requires
        0 <= m <= 0x8000_0000_0000_0000,
    ensures
        fold_i64_digits(digits_of(m), 0, 0) == Some((digits_of(m).len() as int, m)),
    decreases m,
{
    if m < 10 {
        assert(digits_of(m) == seq![(48 + m) as u8]);
        assert(fold_i64_digits(digits_of(m), 1, m) == Some((1int, m)));
        assert(fold_i64_digits(digits_of(m), 0, 0) == Some((1int, m)));
    } else {
        lemma_fold_digits(m / 10);
        lemma_fold_push(digits_of(m / 10), 0, 0, m / 10, (48 + m % 10) as u8);
        assert(digits_of(m) == digits_of(m / 10).push((48 + m % 10) as u8));
        assert((m / 10) * 10 + (m % 10) == m);
    }
}

/// Appending a digit extends a successful fold by that digit.
proof fn lemma_fold_push(s: Seq<u8>, i: int, acc: int, v: int, b: u8)
    requires
        0 <= i <= s.len(),
        0 <= acc,
        fold_i64_digits(s, i, acc) == Some((s.len() as int, v)),
        48 <= b <= 57,
        v * 10 + (b - 48) <= 0x8000_0000_0000_0000,
        v >= 0,
    ensures
        fold_i64_digits(s.push(b), i, acc) == Some((s.len() as int + 1, v * 10 + (b - 48))),
    decreases s.len() - i,
{
    if i < s.len() && crate::parse::is_digit(s[i]) {
        let acc2 = acc * 10 + (s[i] - 48);
        if acc2 > 0x8000_0000_0000_0000 {
        } else {
            lemma_fold_push(s, i + 1, acc2, v, b);
            assert(s.push(b)[i] == s[i]);
        }
    } else if i < s.len() {
    } else {
        assert(acc == v);
        assert(s.push(b)[i] == b);
        assert(fold_i64_digits(s.push(b), i + 1, v * 10 + (b - 48)) == Some(
            (s.len() as int + 1, v * 10 + (b - 48)),
        ));
    }
}

/// The canonical integer text parses back to the integer.
pub proof fn lemma_parse_int_text(z: i64)
    ensures
        parse_i64_spec(int_text(z as int)) == Some(z),
{
    let s = int_text(z as int);
    crate::repr::lemma_digits_of_ascii(if z < 0 {
        -(z as int)
    } else {
        z as int
    });
    if z >= 0 {
        lemma_fold_digits(z as int);
        assert(s == digits_of(z as int));
        assert(s.len() >= 1);
        assert(48 <= s[0] <= 57);
    } else {
        let mag = -(z as int);
        lemma_fold_digits(mag);
        assert(s == seq![45u8] + digits_of(mag));
        assert(s[0] == 45);
        lemma_fold_skip_one(digits_of(mag), mag);
        assert(s.skip(1) =~= digits_of(mag));
    }
}

/// A fold from position one of a sign-prefixed text equals the fold of the
/// digits alone.
proof fn lemma_fold_skip_one(d: Seq<u8>, v: int)
    requires
        fold_i64_digits(d, 0, 0) == Some((d.len() as int, v)),
    ensures
        fold_i64_digits(seq![45u8] + d, 1, 0) == Some((d.len() as int + 1, v)),
{
    lemma_fold_shift(d, 0, 0, seq![45u8]);
}

/// Folding is invariant under shifting by a prefix.
proof fn lemma_fold_shift(s: Seq<u8>, i: int, acc: int, pre: Seq<u8>)
    requires
        0 <= i <= s.len(),
    ensures
        fold_i64_digits(pre + s, pre.len() + i, acc) == match fold_i64_digits(s, i, acc) {
            Some(p) => Some((p.0 + pre.len() as int, p.1)),
            None => None,
        },
    decreases s.len() - i,
{
    assert((pre + s).len() == pre.len() + s.len());
    if i < s.len() {
        assert((pre + s)[pre.len() + i] == s[i]);
        if crate::parse::is_digit(s[i]) {
            let acc2 = acc * 10 + (s[i] - 48);
            if acc2 <= 0x8000_0000_0000_0000 {
                lemma_fold_shift(s, i + 1, acc2, pre);
            }
        }
    }
}

/// No byte of an integer text is a grammar marker.
proof fn lemma_int_text_plain(z: int)
    ensures
        forall|j: int|
            0 <= j < int_text(z).len() ==> (#[trigger] int_text(z)[j] == 45 || 48 <= int_text(
                z,
            )[j] <= 57),
        int_text(z)[0] != 43,
{
    let mag: int = if z < 0 {
        -z
    } else {
        z
    };
    crate::repr::lemma_digits_of_ascii(mag);
    if z < 0 {
        assert forall|j: int|
            0 <= j < int_text(z).len() implies (#[trigger] int_text(z)[j] == 45 || 48 <= int_text(
            z,
        )[j] <= 57) by {
            if j > 0 {
                assert(int_text(z)[j] == digits_of(mag)[j - 1]);
            }
        }
    }
}

/// A text without either byte is searched to its end.
proof fn lemma_find2_none(s: Seq<u8>, i: int, a: u8, b: u8)
    requires
        0 <= i <= s.len(),
        forall|j: int| i <= j < s.len() ==> s[j] != a && s[j] != b,
    ensures
        find2_spec(s, i, a, b) == s.len(),
    decreases s.len() - i,
{
    if i < s.len() {
        lemma_find2_none(s, i + 1, a, b);
    }
}

/// Round trip on integers: decoding the canonical encoding of an integer
/// value yields the value back.
pub proof fn lemma_round_trip_int(z: i64)
    ensures
        parse_native_spec(encode_native(Native::Integer(z))) == Some(Native::Integer(z)),
{
    let s = encode_native(Native::Integer(z));
    lemma_int_text_plain(z as int);
    lemma_find2_none(s, 0, 73, 105);
    lemma_find2_none(s, 0, 47, 47);
    assert(s.len() >= 1);
    assert(s[0] != 72);
    assert(!crate::parse::has_real_marker(s));
    if s.len() >= 2 {
        assert(s[1] != 111);
    }
    lemma_parse_int_text(z);
}

/// Round trip on quotients: decoding the canonical encoding of a reduced
/// checked quotient yields the quotient back.
pub proof fn lemma_round_trip_quotient(n: i64, d: i64)
    requires
        2 <= d <= 999_999,
        -999_999 <= n <= 999_999,
        n != 0,
        gcd_nat(crate::qrat::abs_int(n as int) as nat, d as nat) == 1,
    ensures
        parse_native_spec(encode_native(Native::Quotient(n, d))) == Some(Native::Quotient(n, d)),
{
    let s = encode_native(Native::Quotient(n, d));
    let a = int_text(n as int);
    let dd = digits_of(d as int);
    assert(s == a + seq![47u8] + dd);
    lemma_int_text_plain(n as int);
    crate::repr::lemma_digits_of_ascii(d as int);
    // no imaginary marker anywhere, no leading infinity or radix marker
    assert forall|j: int| 0 <= j < s.len() implies s[j] != 73 && s[j] != 105 by {
        if j < a.len() {
            assert(s[j] == a[j]);
        } else if j == a.len() {
            assert(s[j] == 47);
        } else {
            assert(s[j] == dd[j - a.len() - 1]);
        }
    }
    lemma_find2_none(s, 0, 73, 105);
    // the slash stands right after the numerator text
    assert(s[a.len() as int] == 47);
    assert forall|j: int| 0 <= j < a.len() implies s[j] != 47 by {
        assert(s[j] == a[j]);
    }
    lemma_find2_first(s, 0, a.len() as int);
    assert(s.take(a.len() as int) =~= a);
    assert(s.skip(a.len() as int + 1) =~= dd);
    lemma_parse_int_text(n);
    lemma_fold_digits(d as int);
    assert(parse_i64_spec(dd) == Some(d)) by {
        assert(48 <= dd[0] <= 57);
    }
    assert(s[0] == a[0]);
    lemma_reduce_of_reduced(n as int, d as int);
}

/// The first slash position, when everything before it is slash-free.
proof fn lemma_find2_first(s: Seq<u8>, i: int, p: int)
    requires
        0 <= i <= p < s.len(),
        s[p] == 47,
        forall|j: int| i <= j < p ==> s[j] != 47,
    ensures
        find2_spec(s, i, 47, 47) == p,
    decreases p - i,
{
    if i < p {
        lemma_find2_first(s, i + 1, p);
    }
}

/// Reducing an already reduced pair changes nothing.
proof fn lemma_reduce_of_reduced(n: int, d: int)
    requires
        d >= 1,
        n != 0,
        gcd_nat(crate::qrat::abs_int(n) as nat, d as nat) == 1,
    ensures
        reduce_frac(n, d) == (n, d),
{
    assert(n / 1int == n) by (nonlinear_arith);
    assert(d / 1int == d) by (nonlinear_arith);
}

} // verus!

verus! {

/// The value of `k` digits read from position `p` on.
pub open spec fn digit_val(s: Seq<u8>, p: int, k: int) -> int
    decreases k,
{
    if k <= 0 {
        0
    } else {
        digit_val(s, p, k - 1) * 10 + (s[p + k - 1] - 48)
    }
}

/// `k` digits read as a value stay below `10^k`.
proof fn lemma_digit_val_bound(s: Seq<u8>, p: int, k: int)
    requires
        0 <= p,
        p + k <= s.len(),
        forall|i: int| p <= i < p + k ==> crate::parse::is_digit(#[trigger] s[i]),
    ensures
        0 <= digit_val(s, p, k) < crate::dec::pow10(if k >= 0 {
            k as nat
        } else {
            0
        }),
    decreases k,
{
    crate::dec::lemma_pow10_values();
    if k > 0 {
        lemma_digit_val_bound(s, p, k - 1);
        crate::dec::lemma_pow10_adds((k - 1) as nat, 1);
        assert(digit_val(s, p, k - 1) * 10 + 9 < crate::dec::pow10((k - 1) as nat) * 10)
            by (nonlinear_arith)
            requires
                digit_val(s, p, k - 1) < crate::dec::pow10((k - 1) as nat),
        ;
    }
}

/// Digits written from a value read back as the value.
proof fn lemma_digit_val_of_digits(s: Seq<u8>, p: int, v: int)
    requires
        0 <= v,
        0 <= p,
        p + digits_of(v).len() <= s.len(),
        s.subrange(p, p + digits_of(v).len() as int) == digits_of(v),
    ensures
        digit_val(s, p, digits_of(v).len() as int) == v,
    decreases v,
{
    let dd = digits_of(v).len() as int;
    assert(digit_val(s, p, 0) == 0);
    if v < 10 {
        assert(s.subrange(p, p + 1)[0] == digits_of(v)[0]);
        assert(s[p] == (48 + v) as u8);
        assert(digit_val(s, p, 1) == digit_val(s, p, 0) * 10 + (s[p] - 48));
    } else {
        assert(s.subrange(p, p + dd - 1) =~= digits_of(v / 10)) by {
            assert forall|i: int| 0 <= i < dd - 1 implies #[trigger] s.subrange(p, p + dd - 1)[i]
                == digits_of(v / 10)[i] by {
                assert(s.subrange(p, p + dd)[i] == digits_of(v)[i]);
            }
        }
        lemma_digit_val_of_digits(s, p, v / 10);
        assert(s.subrange(p, p + dd)[dd - 1] == digits_of(v)[dd - 1]);
        assert(s[p + dd - 1] == (48 + v % 10) as u8);
        assert(digit_val(s, p, dd) == digit_val(s, p, dd - 1) * 10 + (s[p + dd - 1] - 48));
        assert(digit_val(s, p, dd - 1) == v / 10);
        assert((v / 10) * 10 + v % 10 == v);
    }
}

/// A run of fractional digits folds to its value, one scale step per digit.
proof fn lemma_ffrac_run(s: Seq<u8>, a: int, b: int, j: int, any: bool)
    requires
        0 <= a <= a + j <= b <= s.len(),
        b - a <= 14,
        forall|i: int| a <= i < b ==> crate::parse::is_digit(#[trigger] s[i]),
        b == s.len() || !crate::parse::is_digit(s[b]),
    ensures
        crate::parse::fold_frac_digits(s, a + j, digit_val(s, a, j), j, false, any) == (
            b,
            digit_val(s, a, b - a),
            b - a,
            false,
            any || j < b - a,
        ),
    decreases b - a - j,
{
    crate::dec::lemma_pow10_values();
    lemma_digit_val_bound(s, a, j);
    if a + j < b {
        crate::dec::lemma_pow10_mono(j as nat, 13);
        lemma_ffrac_run(s, a, b, j + 1, true);
        assert(digit_val(s, a, j + 1) == digit_val(s, a, j) * 10 + (s[a + j] - 48));
    }
}

/// A run of exponent digits (for a value up to three digits) folds to its
/// value without reaching the cap.
proof fn lemma_fexp_run(s: Seq<u8>, a: int, j: int, any: bool)
    requires
        0 <= a <= a + j <= s.len(),
        s.len() - a <= 3,
        forall|i: int| a <= i < s.len() ==> crate::parse::is_digit(#[trigger] s[i]),
    ensures
        crate::parse::fold_exp_digits(s, a + j, digit_val(s, a, j), any) == (
            s.len() as int,
            digit_val(s, a, s.len() - a),
            any || j < s.len() - a,
        ),
    decreases s.len() - a - j,
{
    crate::dec::lemma_pow10_values();
    lemma_digit_val_bound(s, a, j);
    if a + j < s.len() {
        assert(crate::dec::pow10(2) == 100) by {
            reveal_with_fuel(crate::dec::pow10, 3);
        }
        crate::dec::lemma_pow10_mono(j as nat, 2);
        lemma_fexp_run(s, a, j + 1, true);
        assert(digit_val(s, a, j + 1) == digit_val(s, a, j) * 10 + (s[a + j] - 48));
    }
}

/// A number is its stripped mantissa scaled back by the removed zeros.
proof fn lemma_strip0_factor(m: int)
    requires
        m >= 1,
    ensures
        n_digits(strip0(m)) <= n_digits(m),
        m == strip0(m) * crate::dec::pow10((n_digits(m) - n_digits(strip0(m))) as nat),
    decreases m,
{
    if m >= 10 && m % 10 == 0 {
        lemma_strip0_factor(m / 10);
        let k = (n_digits(m / 10) - n_digits(strip0(m / 10))) as nat;
        crate::dec::lemma_pow10_adds(k, 1);
        assert(m == (m / 10) * 10);
        assert((strip0(m / 10) * crate::dec::pow10(k)) * 10 == strip0(m / 10) * (crate::dec::pow10(
            k,
        ) * 10)) by (nonlinear_arith);
    }
}

/// Round trip on reals: decoding the canonical encoding of a finite,
/// non-integral real yields the real back.
#[verifier::rlimit(100)]
#[verifier::spinoff_prover]
pub proof fn lemma_round_trip_real(d: Dec)
    requires
        crate::dec::dec_wf(d),
        d is Fin,
        !crate::dec::disp_as_int_spec(d),
    ensures
        parse_native_spec(encode_native(Native::Real(d))) == Some(Native::Real(d)),
        crate::parse::parse_real_spec(crate::repr::encode_dec(d)) == Some(d),
        forall|j: int|
            0 <= j < crate::repr::encode_dec(d).len() ==> (#[trigger] crate::repr::encode_dec(
                d,
            )[j] == 45 || crate::repr::encode_dec(d)[j] == 46 || crate::repr::encode_dec(d)[j]
                == 69 || 48 <= crate::repr::encode_dec(d)[j] <= 57),
{
    let neg = d->Fin_neg;
    let m = d->m as int;
    let e = d->e as int;
    let s = encode_native(Native::Real(d));
    let sm = strip0(m);
    let dds = digits_of(sm);
    let dd = dds.len() as int;
    let ex = int_text(e + 1);
    let sign: Seq<u8> = if neg {
        seq![45u8]
    } else {
        Seq::<u8>::empty()
    };
    assert(s == sign + seq![46u8] + dds + seq![69u8] + ex);
    crate::dec::lemma_pow10_values();
    crate::repr::lemma_strip0_bounds(m);
    crate::repr::lemma_digits_of_ascii(sm);
    crate::repr::lemma_digits_of_len(sm);
    crate::dec::lemma_n_digits_of_range(m, 14);
    lemma_strip0_factor(m);
    crate::dec::lemma_n_digits_bounds(sm);
    if n_digits(sm) > 14 {
        crate::dec::lemma_pow10_mono(14, (n_digits(sm) - 1) as nat);
    }
    let i0: int = if neg {
        1
    } else {
        0
    };
    let a = i0 + 1;
    let b = a + dd;
    lemma_int_text_plain(e + 1);
    // every byte is a digit, a sign, the point or the exponent letter
    assert forall|j: int| 0 <= j < s.len() implies (s[j] == 45 || s[j] == 46 || s[j] == 69 || 48
        <= s[j] <= 57) by {
        if j < i0 {
        } else if j == i0 {
        } else if j < b {
            assert(s[j] == dds[j - a]);
        } else if j == b {
        } else {
            assert(s[j] == ex[j - b - 1]);
        }
    }
    lemma_find2_none(s, 0, 73, 105);
    lemma_find2_none(s, 0, 47, 47);
    assert(s[i0] == 46);
    assert(crate::parse::has_real_marker(s));
    assert(s[0] != 72 && s[0] != 43);
    if s.len() >= 2 && s[0] == 45 {
        assert(s[1] == 46);
    }
    // the integer-part scan stops at the point at once
    assert(crate::parse::fold_int_digits(s, i0, 0, 0, false, false) == (i0, 0int, 0int, false, false));
    // the fractional scan reads the mantissa digits
    assert(s.subrange(a, b) =~= dds);
    assert forall|i: int| a <= i < b implies crate::parse::is_digit(#[trigger] s[i]) by {
        assert(s[i] == dds[i - a]);
    }
    lemma_digit_val_of_digits(s, a, sm);
    assert(s[b] == 69);
    lemma_ffrac_run(s, a, b, 0, false);
    assert(crate::parse::fold_frac_digits(s, a, 0int, 0int, false, false) == (b, sm, dd, false, true));
    // the exponent scan reads the signed exponent
    let eneg = e + 1 < 0;
    let emag: int = if eneg {
        -(e + 1)
    } else {
        e + 1
    };
    let j0: int = if eneg {
        b + 2
    } else {
        b + 1
    };
    assert(ex == (if eneg {
        seq![45u8] + digits_of(emag)
    } else {
        digits_of(emag)
    }));
    assert(s.subrange(j0, s.len() as int) =~= digits_of(emag)) by {
        assert forall|i: int| 0 <= i < s.len() - j0 implies #[trigger] s.subrange(
            j0,
            s.len() as int,
        )[i] == digits_of(emag)[i] by {
            assert(s[j0 + i] == ex[j0 + i - b - 1]);
        }
    }
    crate::repr::lemma_digits_of_len(emag);
    crate::repr::lemma_digits_of_ascii(emag);
    if emag >= 1 && n_digits(emag) > 3 {
        crate::dec::lemma_n_digits_bounds(emag);
        crate::dec::lemma_pow10_mono(3, (n_digits(emag) - 1) as nat);
        assert(crate::dec::pow10(3) == 1000) by {
            reveal_with_fuel(crate::dec::pow10, 5);
        }
    }
    let s_exp = s.subrange(j0, s.len() as int);
    assert forall|i: int| j0 <= i < s.len() implies crate::parse::is_digit(#[trigger] s[i]) by {
        assert(s[i] == s_exp[i - j0]);
    }
    lemma_digit_val_of_digits(s, j0, emag);
    lemma_fexp_run(s, j0, 0, false);
    assert(s[b] == 101 || s[b] == 69);
    if eneg {
        assert(s[b + 1] == ex[0]);
        assert(s[b + 1] == 45);
    } else {
        assert(s[b + 1] == ex[0]);
        assert(48 <= s[b + 1] <= 57);
    }
    // what the grammar yields is the normalization of the mantissa at its scale
    assert(crate::parse::parse_real_spec(s) == Some(
        crate::dec::norm_spec(neg, sm, (e + 1) + 0 - dd, false),
    ));
    // and that normalization is the original real
    assert(m == sm * crate::dec::pow10((14 - dd) as nat));
    assert(crate::dec::norm_spec(neg, sm, e + 1 - dd, false) == d) by {
        crate::dec::lemma_n_digits_bounds(sm);
        assert(crate::dec::n_digits(sm) == dd);
    }
}

} // verus!

verus! {

/// A run of integer-part digits (at most 14) folds to its value.
proof fn lemma_fint_run(s: Seq<u8>, a: int, b: int, j: int, any: bool)
    requires
        0 <= a <= a + j <= b <= s.len(),
        b - a <= 14,
        forall|i: int| a <= i < b ==> crate::parse::is_digit(#[trigger] s[i]),
        b == s.len() || !crate::parse::is_digit(s[b]),
    ensures
        crate::parse::fold_int_digits(s, a + j, digit_val(s, a, j), 0, false, any) == (
            b,
            digit_val(s, a, b - a),
            0int,
            false,
            any || j < b - a,
        ),
    decreases b - a - j,
{
    crate::dec::lemma_pow10_values();
    lemma_digit_val_bound(s, a, j);
    if a + j < b {
        crate::dec::lemma_pow10_mono(j as nat, 13);
        lemma_fint_run(s, a, b, j + 1, true);
        assert(digit_val(s, a, j + 1) == digit_val(s, a, j) * 10 + (s[a + j] - 48));
    }
}

/// A component round trip: the encoding of a well-formed real (integral
/// form, point form, or infinity) parses back to it as a complex component.
#[verifier::rlimit(100)]
#[verifier::spinoff_prover]
pub proof fn lemma_round_trip_component(d: Dec)
    requires
        crate::dec::dec_wf(d),
    ensures
        crate::parse::parse_simple_spec(crate::repr::encode_dec_or_int(d)) == Some(d),
        forall|j: int|
            0 <= j < crate::repr::encode_dec_or_int(d).len()
                ==> (#[trigger] crate::repr::encode_dec_or_int(d)[j] == 43
                || crate::repr::encode_dec_or_int(d)[j] == 45 || crate::repr::encode_dec_or_int(
                d,
            )[j] == 46 || crate::repr::encode_dec_or_int(d)[j] == 69
                || crate::repr::encode_dec_or_int(d)[j] == 111 || 48
                <= crate::repr::encode_dec_or_int(d)[j] <= 57),
{
    let s = crate::repr::encode_dec_or_int(d);
    crate::dec::lemma_pow10_values();
    if crate::dec::disp_as_int_spec(d) {
        let z = crate::dec::to_i64_round_spec(d) as int;
        assert(s == int_text(z));
        lemma_int_text_plain(z);
        let mag: int = if z < 0 {
            -z
        } else {
            z
        };
        let i0: int = if z < 0 {
            1
        } else {
            0
        };
        let dds = digits_of(mag);
        let dd = dds.len() as int;
        crate::repr::lemma_digits_of_ascii(mag);
        crate::repr::lemma_digits_of_len(mag);
        assert(s.subrange(i0, i0 + dd) =~= dds);
        assert forall|i: int| i0 <= i < i0 + dd implies crate::parse::is_digit(
            #[trigger] s[i],
        ) by {
            assert(s[i] == dds[i - i0]);
        }
        lemma_digit_val_of_digits(s, i0, mag);
        // the magnitude has at most 14 digits
        match d {
            Dec::Zero => {
                assert(mag == 0);
            },
            Dec::Fin { neg, m, e } => {
                let p = crate::dec::pow10((13 - e) as nat);
                crate::dec::lemma_pow10_pos((13 - e) as nat);
                crate::dec::lemma_pow10_mono((13 - e) as nat, 13);
                vstd::arithmetic::div_mod::lemma_fundamental_div_mod(m as int, p);
                if e < 13 {
                    assert((m as int) % p == 0);
                    assert(mag == (m as int) / p);
                    assert((m as int) / p >= 1 && ((m as int) / p) * p == m as int)
                        by (nonlinear_arith)
                        requires
                            (m as int) >= crate::dec::pow10(13),
                            0 < p <= crate::dec::pow10(13),
                            (m as int) == p * ((m as int) / p) + (m as int) % p,
                            (m as int) % p == 0,
                    ;
                } else {
                    assert(p == 1);
                    assert(mag == (m as int) * crate::dec::pow10((e - 13) as nat));
                    assert(mag == m as int);
                }
                assert(mag * p == m && mag >= 1);
                assert(mag < crate::dec::pow10(14)) by (nonlinear_arith)
                    requires
                        mag * p == m as int,
                        (m as int) < crate::dec::pow10(14),
                        p >= 1,
                        mag >= 0,
                ;
                crate::dec::lemma_n_digits_bounds(mag);
                if n_digits(mag) > 14 {
                    crate::dec::lemma_pow10_mono(14, (n_digits(mag) - 1) as nat);
                }
            },
            Dec::Inf { .. } => {},
        }
        lemma_fint_run(s, i0, i0 + dd, 0, false);
        assert(crate::parse::fold_int_digits(s, i0, 0int, 0int, false, false) == (
            i0 + dd,
            mag,
            0int,
            false,
            true,
        ));
        assert(s.len() == i0 + dd);
        assert(crate::parse::parse_real_spec(s) == Some(
            crate::dec::norm_spec(z < 0, mag, 0int, false),
        ));
        // normalizing the integral magnitude rebuilds the real
        match d {
            Dec::Zero => {
            },
            Dec::Fin { neg, m, e } => {
                let p = crate::dec::pow10((13 - e) as nat);
                assert(neg <==> z < 0);
                crate::dec::lemma_n_digits_bounds(mag);
                crate::dec::lemma_pow10_adds((e) as nat, (13 - e) as nat);
                crate::dec::lemma_pow10_adds((e + 1) as nat, (13 - e) as nat);
                assert(crate::dec::pow10((e) as nat) <= mag < crate::dec::pow10((e + 1) as nat))
                    by (nonlinear_arith)
                    requires
                        p >= 1,
                        mag * p == m as int,
                        crate::dec::pow10((e) as nat) * p <= m as int,
                        (m as int) < crate::dec::pow10((e + 1) as nat) * p,
                ;
                crate::dec::lemma_n_digits_of_range(mag, (e + 1) as nat);
                assert(mag * crate::dec::pow10((14 - (e + 1)) as nat) == m);
            },
            Dec::Inf { .. } => {},
        }
        if s.len() >= 2 {
            assert(s[1] != 111);
        }
    } else {
        match d {
            Dec::Inf { neg } => {
                assert(s =~= (if neg {
                    seq![45u8, 111u8, 111u8]
                } else {
                    seq![43u8, 111u8, 111u8]
                }));
            },
            _ => {
                lemma_round_trip_real(d);
                assert(s == crate::repr::encode_dec(d));
                assert(s[0] == 45 || s[0] == 46);
                if s.len() >= 2 && s[0] == 45 {
                    assert(s[1] == 46);
                }
            },
        }
    }
}

} // verus!

verus! {

/// The first position holding either byte, when it is known.
proof fn lemma_find2_at(s: Seq<u8>, i: int, p: int, a: u8, b: u8)
    requires
        0 <= i <= p < s.len(),
        s[p] == a || s[p] == b,
        forall|j: int| i <= j < p ==> s[j] != a && s[j] != b,
    ensures
        find2_spec(s, i, a, b) == p,
    decreases p - i,
{
    if i < p {
        lemma_find2_at(s, i + 1, p, a, b);
    }
}

/// Round trip on complex values: decoding the canonical encoding of a
/// canonical complex value yields the value back.
#[verifier::rlimit(100)]
#[verifier::spinoff_prover]
pub proof fn lemma_round_trip_complex(re: Dec, im: Dec)
    requires
        crate::dec::dec_wf(re),
        crate::dec::dec_wf(im),
        im != Dec::Zero,
        !(re is Inf),
        im is Inf ==> re == Dec::Zero,
    ensures
        parse_native_spec(encode_native(Native::Complex(re, im))) == Some(Native::Complex(re, im)),
{
    let s = encode_native(Native::Complex(re, im));
    let a = crate::repr::encode_dec_or_int(re);
    let b = crate::repr::encode_dec_or_int(im);
    assert(s == a + seq![73u8] + b);
    lemma_round_trip_component(re);
    lemma_round_trip_component(im);
    // neither side holds the imaginary marker or a slash; the real side
    // holds no infinity letters either
    assert forall|j: int| 0 <= j < a.len() implies a[j] != 43 && a[j] != 111 by {
        if crate::dec::disp_as_int_spec(re) {
            lemma_int_text_plain(crate::dec::to_i64_round_spec(re) as int);
        } else {
            lemma_round_trip_real(re);
        }
    }
    assert forall|j: int| 0 <= j < s.len() implies s[j] != 47 by {
        if j < a.len() {
            assert(s[j] == a[j]);
        } else if j > a.len() {
            assert(s[j] == b[j - a.len() - 1]);
        }
    }
    assert forall|j: int| 0 <= j < a.len() implies s[j] != 73 && s[j] != 105 by {
        assert(s[j] == a[j]);
    }
    assert(s[a.len() as int] == 73);
    lemma_find2_at(s, 0, a.len() as int, 73, 105);
    lemma_find2_none(s, 0, 47, 47);
    assert(s.take(a.len() as int) =~= a);
    assert(s.skip(a.len() as int + 1) =~= b);
    assert(s[0] == a[0]);
    assert(s[0] != 43 && s[0] != 72);
    if s[0] == 45 {
        assert(s[1] == a[1] || s[1] == 73);
        assert(s[1] != 111);
    }
}

/// Round trip: decoding the canonical encoding of any canonical checked
/// value yields the value back.
pub proof fn lemma_round_trip(v: Native)
    requires
        native_canon(v),
        check_ok(v),
    ensures
        parse_native_spec(encode_native(v)) == Some(v),
{
    match v {
        Native::Integer(z) => {
            lemma_round_trip_int(z);
        },
        Native::Real(d) => {
            match d {
                Dec::Inf { neg } => {
                    lemma_round_trip_infinite(neg);
                },
                _ => {
                    lemma_round_trip_real(d);
                },
            }
        },
        Native::Quotient(n, d) => {
            assert(n != 0) by {
                if n == 0 {
                    assert(gcd_nat(0, d as nat) == gcd_nat(d as nat, 0nat % d as nat));
                    assert(gcd_nat(d as nat, 0) == d as nat);
                }
            }
            lemma_round_trip_quotient(n, d);
        },
        Native::Complex(re, im) => {
            lemma_round_trip_complex(re, im);
        },
    }
}

/// The round trip of decoding after encoding: for every well-formed checked
/// value, decoding its canonicalized encoding yields exactly its canonical
/// form.
pub proof fn lemma_decode_encode(v: Native)
    requires
        native_wf(v),
        check_ok(v),
    ensures
        crate::num::decode_spec(encode_native(fix_spec(v))) == Some(fix_spec(v)),
{
    crate::native::lemma_fix_canon(v);
    crate::native::lemma_fix_check(v);
    lemma_round_trip(fix_spec(v));
    lemma_fix_canon_identity(fix_spec(v));
}

} // verus!
