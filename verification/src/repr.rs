//! The canonical fixed-width textual encoding of a number.
//!
//! Grammar (ASCII, at most [`REPR_LEN`] bytes, padded with spaces):
//! - integer: optional `-`, then decimal digits;
//! - quotient: integer, `/`, digits (a reduced pair, denominator at least 2);
//! - real: optional `-`, `.`, up to 14 mantissa digits without trailing
//!   zeros, `E`, decimal exponent in `(-300, 301)`; or the literal
//!   infinities `+oo` / `-oo`;
//! - complex: a real-or-integer form, `I`, a real-or-integer form (only
//!   axis-aligned infinite parts: a zero real part beside `+oo`/`-oo`).

use crate::dec::{n_digits, Dec};
use crate::native::Native;
use crate::native::NativeError;
use crate::text::{digits_of, int_text};
use vstd::prelude::*;
use vstd::string::StringSliceAdditionalSpecFns;

verus! {

/// Fixed width of the canonical textual representation: the longest form is
/// a complex number with two negative 14-digit reals with three-digit
/// negative exponents — 21 bytes per component plus the marker, 43 in all
/// (a 41-byte buffer could not hold that worst case); every canonical
/// encoding provably fits, see [`lemma_encode_len`].
pub const REPR_LEN: usize = 43;

/// A number's canonical encoding: ASCII content, padded with spaces.
#[derive(Clone, Copy, Debug)]
pub struct Repr {
    bytes: [u8; REPR_LEN],
}

/// `m` with its trailing decimal zeros removed.
pub open spec fn strip0(m: int) -> int
    decreases m,
{
    if m >= 10 && m % 10 == 0 {
        strip0(m / 10)
    } else {
        m
    }
}

/// The encoding of a real: sign, leading point, mantissa digits without
/// trailing zeros, `E`, the decimal exponent plus one (so `0.1` is `.1E0`);
/// zero encodes as `0` and the infinities as `+oo` / `-oo`.
pub open spec fn encode_dec(d: Dec) -> Seq<u8> {
    match d {
        Dec::Zero => seq![48u8],
        Dec::Inf { neg } => if neg {
            seq![45u8, 111u8, 111u8]
        } else {
            seq![43u8, 111u8, 111u8]
        },
        Dec::Fin { neg, m, e } => (if neg {
            seq![45u8]
        } else {
            Seq::<u8>::empty()
        }) + seq![46u8] + digits_of(strip0(m as int)) + seq![69u8] + int_text(e + 1),
    }
}

/// A complex component: an exactly-integral real takes the integer form.
pub open spec fn encode_dec_or_int(d: Dec) -> Seq<u8> {
    if crate::dec::disp_as_int_spec(d) {
        int_text(crate::dec::to_i64_round_spec(d) as int)
    } else {
        encode_dec(d)
    }
}

/// The canonical encoding of a native value in canonical form.
pub open spec fn encode_native(v: Native) -> Seq<u8> {
    match v {
        Native::Integer(z) => int_text(z as int),
        Native::Real(d) => encode_dec_or_int(d),
        Native::Quotient(n, dd) => int_text(n as int) + seq![47u8] + digits_of(dd as int),
        Native::Complex(re, im) => encode_dec_or_int(re) + seq![73u8] + encode_dec_or_int(im),
    }
}

/// `content` padded with spaces to the fixed representation width.
pub open spec fn padded(content: Seq<u8>) -> Seq<u8> {
    content + Seq::new((REPR_LEN - content.len()) as nat, |i: int| 32u8)
}

/// Bytes of a source text: between ASCII space and tilde.
pub open spec fn printable_ascii(s: Seq<u8>) -> bool {
    forall|i: int| 0 <= i < s.len() ==> 32 <= #[trigger] s[i] <= 126
}

pub proof fn lemma_digits_of_len(m: int)
    requires
        m >= 0,
    ensures
        digits_of(m).len() == n_digits(m),
    decreases m,
{
    if m >= 10 {
        lemma_digits_of_len(m / 10);
    }
}

pub proof fn lemma_digits_of_ascii(m: int)
    requires
        m >= 0,
    ensures
        forall|i: int| 0 <= i < digits_of(m).len() ==> 48 <= #[trigger] digits_of(m)[i] <= 57,
    decreases m,
{
    if m >= 10 {
        lemma_digits_of_ascii(m / 10);
        assert forall|i: int| 0 <= i < digits_of(m).len() implies 48 <= #[trigger] digits_of(m)[i]
            <= 57 by {
            if i < digits_of(m).len() - 1 {
                assert(digits_of(m)[i] == digits_of(m / 10)[i]);
            }
        }
    }
}

/// Strip of trailing zeros keeps the number positive and no longer.
pub proof fn lemma_strip0_bounds(m: int)
    requires
        m >= 1,
    ensures
        1 <= strip0(m) <= m,
    decreases m,
{
    if m >= 10 && m % 10 == 0 {
        lemma_strip0_bounds(m / 10);
    }
}

/// The integer text of a 64-bit value is at most 20 bytes.
pub proof fn lemma_int_text_len(z: int)
    requires
        -0x8000_0000_0000_0000 <= z <= 0xffff_ffff_ffff_ffff,
    ensures
        int_text(z).len() <= 21,
        z >= 0 ==> int_text(z).len() <= 20,
        -999_999 <= z <= 999_999 ==> int_text(z).len() <= 7,
        -299 <= z <= 300 ==> int_text(z).len() <= 4,
{
    crate::dec::lemma_pow10_values();
    let mag: int = if z < 0 {
        -z
    } else {
        z
    };
    if mag >= 1 {
        lemma_digits_of_len(mag);
        crate::dec::lemma_n_digits_bounds(mag);
        if n_digits(mag) > 20 {
            crate::dec::lemma_pow10_mono(20, (n_digits(mag) - 1) as nat);
            assert(pow10_20() <= mag) by {
                assert(crate::dec::pow10(20) == crate::dec::pow10(19) * 10) by {
                    crate::dec::lemma_pow10_adds(19, 1);
                }
            }
        }
        if mag <= 999_999 && n_digits(mag) > 6 {
            crate::dec::lemma_pow10_mono(6, (n_digits(mag) - 1) as nat);
            assert(crate::dec::pow10(6) == 1_000_000) by {
                reveal_with_fuel(crate::dec::pow10, 8);
            }
        }
        if mag <= 300 && n_digits(mag) > 3 {
            crate::dec::lemma_pow10_mono(3, (n_digits(mag) - 1) as nat);
            assert(crate::dec::pow10(3) == 1000) by {
                reveal_with_fuel(crate::dec::pow10, 5);
            }
        }
    } else {
        lemma_digits_of_len(0);
    }
}

spec fn pow10_20() -> int {
    crate::dec::pow10(19) * 10
}

/// The encoding of a checked canonical value fits the fixed width.
pub proof fn lemma_encode_len(v: Native)
    requires
        crate::native::native_wf(v),
        crate::native::check_ok(v),
    ensures
        encode_native(v).len() <= REPR_LEN,
{
    match v {
        Native::Integer(z) => {
            lemma_int_text_len(z as int);
        },
        Native::Real(d) => {
            lemma_encode_dec_or_int_len(d);
        },
        Native::Quotient(n, dd) => {
            lemma_int_text_len(n as int);
            lemma_digits_of_len(dd as int);
            crate::dec::lemma_pow10_values();
            if n_digits(dd as int) > 6 {
                crate::dec::lemma_n_digits_bounds(dd as int);
                crate::dec::lemma_pow10_mono(6, (n_digits(dd as int) - 1) as nat);
                assert(crate::dec::pow10(6) == 1_000_000) by {
                    reveal_with_fuel(crate::dec::pow10, 8);
                }
            }
        },
        Native::Complex(re, im) => {
            lemma_encode_dec_or_int_len(re);
            lemma_encode_dec_or_int_len(im);
        },
    }
}

/// A real encodes in at most 21 bytes.
pub proof fn lemma_encode_dec_len(d: Dec)
    requires
        crate::dec::dec_wf(d),
    ensures
        encode_dec(d).len() <= 21,
{
    match d {
        Dec::Zero => {},
        Dec::Inf { .. } => {},
        Dec::Fin { neg, m, e } => {
            crate::dec::lemma_pow10_values();
            lemma_strip0_bounds(m as int);
            lemma_digits_of_len(strip0(m as int));
            crate::dec::lemma_n_digits_bounds(strip0(m as int));
            if n_digits(strip0(m as int)) > 14 {
                crate::dec::lemma_pow10_mono(14, (n_digits(strip0(m as int)) - 1) as nat);
            }
            lemma_int_text_len(e + 1);
        },
    }
}

/// A complex component encodes in at most 21 bytes.
pub proof fn lemma_encode_dec_or_int_len(d: Dec)
    requires
        crate::dec::dec_wf(d),
    ensures
        encode_dec_or_int(d).len() <= 21,
{
    if crate::dec::disp_as_int_spec(d) {
        lemma_int_text_len(crate::dec::to_i64_round_spec(d) as int);
    } else {
        lemma_encode_dec_len(d);
    }
}

/// Text that can stand in a representation buffer.
pub trait ToBytes {
    /// The byte sequence the value stands for.
    spec fn spec_to_bytes(&self) -> Seq<u8>;

    /// The bytes themselves.
    fn to_bytes(&self) -> (r: &[u8])
        ensures
            r@ == self.spec_to_bytes(),
    ;
}

impl ToBytes for String {
    open spec fn spec_to_bytes(&self) -> Seq<u8> {
        vstd::utf8::encode_utf8(self@)
    }

    fn to_bytes(&self) -> (r: &[u8])
        ensures
            r@ == self.spec_to_bytes(),
    {
        self.as_str().as_bytes()
    }
}

impl<'s> ToBytes for &'s str {
    open spec fn spec_to_bytes(&self) -> Seq<u8> {
        self.spec_bytes()
    }

    fn to_bytes(&self) -> (r: &[u8])
        ensures
            r@ == self.spec_to_bytes(),
    {
        self.as_bytes()
    }
}

impl ToBytes for Vec<u8> {
    open spec fn spec_to_bytes(&self) -> Seq<u8> {
        self@
    }

    fn to_bytes(&self) -> (r: &[u8])
        ensures
            r@ == self.spec_to_bytes(),
    {
        self.as_slice()
    }
}

impl Repr {
    /// The raw bytes of the buffer.
    pub closed spec fn view(&self) -> Seq<u8> {
        self.bytes@
    }

    /// A buffer filled with spaces: not a valid representation, the starting
    /// point for building one.
    pub fn empty() -> (r: Repr)
        ensures
            r@ == Seq::new(REPR_LEN as nat, |i: int| 32u8),
    {
        let r = Repr { bytes: [32u8; 43] };
        proof {
            assert(r@ =~= Seq::new(REPR_LEN as nat, |i: int| 32u8));
        }
        r
    }

    /// The zero representation, `0`.
    pub fn zero() -> (r: Repr)
        ensures
            r@ == padded(seq![48u8]),
    {
        let mut v: Vec<u8> = Vec::new();
        v.push(48);
        proof {
            assert(v@ =~= seq![48u8]);
        }
        Repr::from_bytes(v)
    }

    /// The positive-infinity representation, `+oo`.
    pub fn p_inf() -> (r: Repr)
        ensures
            r@ == padded(encode_dec(Dec::Inf { neg: false })),
    {
        let mut v: Vec<u8> = Vec::new();
        v.push(43);
        v.push(111);
        v.push(111);
        proof {
            assert(v@ =~= encode_dec(Dec::Inf { neg: false }));
        }
        Repr::from_bytes(v)
    }

    /// The negative-infinity representation, `-oo`.
    pub fn m_inf() -> (r: Repr)
        ensures
            r@ == padded(encode_dec(Dec::Inf { neg: true })),
    {
        let mut v: Vec<u8> = Vec::new();
        v.push(45);
        v.push(111);
        v.push(111);
        proof {
            assert(v@ =~= encode_dec(Dec::Inf { neg: true }));
        }
        Repr::from_bytes(v)
    }

    /// Overwrite the front of the buffer with the given text, keeping the
    /// rest.
    pub fn copy_from_bytes<I: ToBytes>(self, from: I) -> (r: Repr)
        requires
            from.spec_to_bytes().len() <= REPR_LEN,
        ensures
            r@ == from.spec_to_bytes() + self@.skip(from.spec_to_bytes().len() as int),
    {
        let bs = from.to_bytes();
        let mut out = self;
        let mut i: usize = 0;
        while i < bs.len()
            invariant
                i <= bs@.len() <= REPR_LEN,
                out@ =~= bs@.take(i as int) + self@.skip(i as int),
                bs@ == from.spec_to_bytes(),
            decreases bs@.len() - i,
        {
            out.bytes[i] = bs[i];
            proof {
                assert(out@ =~= bs@.take(i + 1) + self@.skip(i + 1));
            }
            i = i + 1;
        }
        proof {
            assert(bs@.take(bs@.len() as int) =~= bs@);
        }
        out
    }

    /// A buffer holding the given text, padded with spaces.
    pub fn from_bytes<I: ToBytes>(from: I) -> (r: Repr)
        requires
            from.spec_to_bytes().len() <= REPR_LEN,
        ensures
            r@ == padded(from.spec_to_bytes()),
    {
        let r = Repr::empty().copy_from_bytes(from);
        proof {
            assert(r@ =~= padded(from.spec_to_bytes()));
        }
        r
    }

    /// The buffer's content: its bytes with the space padding trimmed from
    /// both ends.
    pub fn content(&self) -> (r: Vec<u8>)
        ensures
            r@ == trim_spaces(self@),
    {
        let mut start: usize = 0;
        while start < REPR_LEN && self.bytes[start] == 32
            invariant
                start <= REPR_LEN,
                forall|j: int| 0 <= j < start ==> self@[j] == 32,
            decreases REPR_LEN - start,
        {
            start = start + 1;
        }
        let mut end: usize = REPR_LEN;
        while end > start && self.bytes[end - 1] == 32
            invariant
                start <= end <= REPR_LEN,
                forall|j: int| end <= j < REPR_LEN ==> self@[j] == 32,
            decreases end,
        {
            end = end - 1;
        }
        let mut v: Vec<u8> = Vec::new();
        let mut i: usize = start;
        while i < end
            invariant
                start <= i <= end <= REPR_LEN,
                v@ == self@.subrange(start as int, i as int),
            decreases end - i,
        {
            v.push(self.bytes[i]);
            proof {
                assert(v@ =~= self@.subrange(start as int, i + 1));
            }
            i = i + 1;
        }
        proof {
            lemma_trim_spaces(self@, start as int, end as int);
        }
        v
    }

    /// The content as a string; the buffer must hold ASCII text.
    pub fn to_str(&self) -> (r: String)
        requires
            crate::text::all_ascii(self@),
        ensures
            r@ == crate::text::chars_of(trim_spaces(self@)),
    {
        let c = self.content();
        proof {
            let t = trim_spaces(self@);
            let lo = first_non_space(self@, 0);
            lemma_first_non_space_low(self@, 0);
            lemma_last_non_space_bounds(self@, lo, self@.len() as int);
            assert forall|i: int| 0 <= i < t.len() implies t[i] < 128 by {
                assert(t[i] == self@[lo + i]);
            }
        }
        crate::text::ascii_string(&c)
    }
}

/// First index that is not a space.
pub open spec fn first_non_space(s: Seq<u8>, i: int) -> int
    decreases s.len() - i,
{
    if i < s.len() && 0 <= i && s[i] == 32 {
        first_non_space(s, i + 1)
    } else {
        i
    }
}

/// One past the last index that is not a space, at or after `lo`.
pub open spec fn last_non_space(s: Seq<u8>, lo: int, i: int) -> int
    decreases i,
{
    if i > lo && 0 < i <= s.len() && s[i - 1] == 32 {
        last_non_space(s, lo, i - 1)
    } else {
        i
    }
}

/// The sequence with spaces trimmed from both ends.
pub open spec fn trim_spaces(s: Seq<u8>) -> Seq<u8> {
    let lo = first_non_space(s, 0);
    let hi = last_non_space(s, lo, s.len() as int);
    s.subrange(lo, hi)
}

proof fn lemma_first_non_space(s: Seq<u8>, k: int)
    requires
        0 <= k <= s.len(),
        forall|j: int| 0 <= j < k ==> s[j] == 32,
        k < s.len() ==> s[k] != 32,
    ensures
        first_non_space(s, 0) == k,
{
    lemma_first_non_space_rec(s, 0, k);
}

proof fn lemma_first_non_space_rec(s: Seq<u8>, i: int, k: int)
    requires
        0 <= i <= k <= s.len(),
        forall|j: int| i <= j < k ==> s[j] == 32,
        k < s.len() ==> s[k] != 32,
    ensures
        first_non_space(s, i) == k,
    decreases s.len() - i,
{
    if i < k {
        lemma_first_non_space_rec(s, i + 1, k);
    }
}

proof fn lemma_last_non_space_rec(s: Seq<u8>, lo: int, i: int, k: int)
    requires
        0 <= lo <= k <= i <= s.len(),
        forall|j: int| k <= j < i ==> s[j] == 32,
        k > lo ==> s[k - 1] != 32,
    ensures
        last_non_space(s, lo, i) == k,
    decreases i,
{
    if i > k {
        lemma_last_non_space_rec(s, lo, i - 1, k);
    }
}

proof fn lemma_trim_spaces(s: Seq<u8>, start: int, end: int)
    requires
        0 <= start <= end <= s.len(),
        forall|j: int| 0 <= j < start ==> s[j] == 32,
        start < s.len() ==> s[start] != 32,
        forall|j: int| end <= j < s.len() ==> s[j] == 32,
        end > start ==> s[end - 1] != 32,
    ensures
        trim_spaces(s) == s.subrange(start, end),
{
    if start == end {
        lemma_first_non_space(s, start);
        lemma_last_non_space_rec(s, start, s.len() as int, start);
    } else {
        lemma_first_non_space(s, start);
        lemma_last_non_space_rec(s, start, s.len() as int, end);
    }
}

} // verus!

verus! {

proof fn lemma_last_non_space_bounds(s: Seq<u8>, lo: int, i: int)
    requires
        0 <= lo <= i <= s.len(),
    ensures
        lo <= last_non_space(s, lo, i) <= i,
    decreases i,
{
    if i > lo && s[i - 1] == 32 {
        lemma_last_non_space_bounds(s, lo, i - 1);
    }
}

proof fn lemma_first_non_space_low(s: Seq<u8>, i: int)
    requires
        0 <= i <= s.len(),
    ensures
        i <= first_non_space(s, i) <= s.len(),
    decreases s.len() - i,
{
    if i < s.len() && s[i] == 32 {
        lemma_first_non_space_low(s, i + 1);
    }
}

} // verus!

verus! {

/// Append the encoding of a real.
pub fn push_dec(out: &mut Vec<u8>, d: Dec)
    requires
        crate::dec::dec_wf(d),
    ensures
        final (out)@ == old(out)@ + encode_dec(d),
{
    match d {
        Dec::Zero => {
            out.push(48);
            proof {
                assert(final (out)@ =~= old(out)@ + encode_dec(d));
            }
        },
        Dec::Inf { neg } => {
            if neg {
                out.push(45);
            } else {
                out.push(43);
            }
            out.push(111);
            out.push(111);
            proof {
                assert(final (out)@ =~= old(out)@ + encode_dec(d));
            }
        },
        Dec::Fin { neg, m, e } => {
            if neg {
                out.push(45);
            }
            out.push(46);
            let mut mm: u64 = m;
            while mm >= 10 && mm % 10 == 0
                invariant
                    strip0(m as int) == strip0(mm as int),
                    mm >= 1,
                decreases mm,
            {
                mm = mm / 10;
            }
            crate::text::push_u64_digits(out, mm);
            out.push(69);
            crate::text::push_i64_text(out, e as i64 + 1);
            proof {
                assert(final (out)@ =~= old(out)@ + encode_dec(d));
            }
        },
    }
}

/// Append a complex component: the integer form when exactly integral.
pub fn push_dec_or_int(out: &mut Vec<u8>, d: Dec)
    requires
        crate::dec::dec_wf(d),
    ensures
        final (out)@ == old(out)@ + encode_dec_or_int(d),
{
    if crate::dec::disp_as_int(d) {
        crate::text::push_i64_text(out, crate::native::dec_to_i64_exact(d));
    } else {
        push_dec(out, d);
    }
}

/// The canonical encoding bytes of a checked value.
pub fn encode_bytes(v: Native) -> (r: Vec<u8>)
    requires
        crate::native::native_wf(v),
        crate::native::check_ok(v),
    ensures
        r@ == encode_native(v),
        r@.len() <= REPR_LEN,
{
    let mut out: Vec<u8> = Vec::new();
    match v {
        Native::Integer(z) => {
            crate::text::push_i64_text(&mut out, z);
        },
        Native::Real(d) => {
            push_dec_or_int(&mut out, d);
        },
        Native::Quotient(n, dd) => {
            crate::text::push_i64_text(&mut out, n);
            out.push(47);
            crate::text::push_u64_digits(&mut out, dd as u64);
            proof {
                assert(out@ =~= encode_native(v));
            }
        },
        Native::Complex(re, im) => {
            push_dec_or_int(&mut out, re);
            out.push(73);
            push_dec_or_int(&mut out, im);
            proof {
                assert(out@ =~= encode_native(v));
            }
        },
    }
    proof {
        lemma_encode_len(v);
    }
    out
}

/// The canonical representation of a checked value.
pub fn repr_native(v: Native) -> (r: Repr)
    requires
        crate::native::native_wf(v),
        crate::native::check_ok(v),
    ensures
        r@ == padded(encode_native(v)),
{
    let bs = encode_bytes(v);
    Repr::from_bytes(bs)
}

/// The representation of an integer.
pub fn repr_z(z: i64) -> (r: Repr)
    ensures
        r@ == padded(encode_native(Native::Integer(z))),
{
    repr_native(Native::Integer(z))
}

/// The representation of a real.
pub fn repr_r(d: Dec) -> (r: Repr)
    requires
        crate::dec::dec_wf(d),
    ensures
        r@ == padded(encode_native(Native::Real(d))),
{
    repr_native(Native::Real(d))
}

/// The representation of a checked quotient.
pub fn repr_q(n: i64, d: i64) -> (r: Repr)
    requires
        0 < d <= 999_999,
        -999_999 <= n <= 999_999,
        crate::qrat::gcd_nat(crate::qrat::abs_int(n as int) as nat, d as nat) == 1,
    ensures
        r@ == padded(encode_native(Native::Quotient(n, d))),
{
    repr_native(Native::Quotient(n, d))
}

/// The representation of a complex number.
pub fn repr_c(re: Dec, im: Dec) -> (r: Repr)
    requires
        crate::dec::dec_wf(re),
        crate::dec::dec_wf(im),
    ensures
        r@ == padded(encode_native(Native::Complex(re, im))),
{
    repr_native(Native::Complex(re, im))
}

proof fn lemma_int_text_ascii(z: int)
    ensures
        printable_ascii(int_text(z)),
{
    if z < 0 {
        lemma_digits_of_ascii(-z);
    } else {
        lemma_digits_of_ascii(z);
    }
}

pub proof fn lemma_encode_dec_or_int_ascii(d: Dec)
    ensures
        printable_ascii(encode_dec_or_int(d)),
        printable_ascii(encode_dec(d)),
{
    match d {
        Dec::Zero => {},
        Dec::Inf { .. } => {},
        Dec::Fin { neg, m, e } => {
            if m >= 1 {
                lemma_strip0_bounds(m as int);
                lemma_digits_of_ascii(strip0(m as int));
            } else {
                lemma_digits_of_ascii(strip0(m as int));
            }
            lemma_int_text_ascii(e + 1);
            assert(printable_ascii(encode_dec(d)));
        },
    }
    if crate::dec::disp_as_int_spec(d) {
        lemma_int_text_ascii(crate::dec::to_i64_round_spec(d) as int);
    }
}

} // verus!

verus! {

impl Repr {
    /// Parse the buffer's content back into a native value; content outside
    /// the grammar is a recoverable error.
    pub fn try_native(&self) -> (r: Result<Native, NativeError>)
        ensures
            match r {
                Ok(v) => crate::parse::parse_native_spec(trim_spaces(self@)) == Some(v)
                    && crate::native::native_wf(v),
                Err(_) => crate::parse::parse_native_spec(trim_spaces(self@)) is None,
            },
    {
        let c = self.content();
        crate::parse::parse_native(&c)
    }

    /// Parse the buffer's content, known to hold a valid representation.
    pub fn to_native(&self) -> (r: Native)
        requires
            crate::parse::parse_native_spec(trim_spaces(self@)) is Some,
        ensures
            Some(r) == crate::parse::parse_native_spec(trim_spaces(self@)),
            crate::native::native_wf(r),
    {
        match self.try_native() {
            Ok(v) => v,
            Err(_) => {
                proof {
                    assert(false);
                }
                Native::Integer(0)
            },
        }
    }

    /// The represented value rounded to a 64-bit integer.
    pub fn as_z(&self) -> (r: i64)
        requires
            crate::parse::parse_native_spec(trim_spaces(self@)) is Some,
        ensures
            r == crate::native::as_z_spec(crate::parse::parse_native_spec(trim_spaces(self@))->0),
    {
        self.to_native().as_z()
    }

    /// The represented value as a decimal real.
    pub fn as_r(&self) -> (r: crate::dec::Dec)
        requires
            crate::parse::parse_native_spec(trim_spaces(self@)) is Some,
        ensures
            r == crate::native::as_r_spec(crate::parse::parse_native_spec(trim_spaces(self@))->0),
    {
        self.to_native().as_r()
    }

    /// The represented value as a reduced quotient pair: succeeds exactly
    /// where a quotient form exists.
    pub fn as_q(&self) -> (r: Result<(i64, i64), NativeError>)
        requires
            crate::parse::parse_native_spec(trim_spaces(self@)) is Some,
        ensures
            r is Ok <==> crate::native::as_q_spec(
                crate::parse::parse_native_spec(trim_spaces(self@))->0,
            ) is Some,
            r matches Ok(q) ==> crate::native::as_q_spec(
                crate::parse::parse_native_spec(trim_spaces(self@))->0,
            ) == Some((q.0 as int, q.1 as int)),
            r matches Err(e) ==> e.0@ == "numerator or denominator beyond 999999"@,
    {
        self.to_native().as_q()
    }

    /// The represented value as a complex pair.
    pub fn as_c(&self) -> (r: (crate::dec::Dec, crate::dec::Dec))
        requires
            crate::parse::parse_native_spec(trim_spaces(self@)) is Some,
        ensures
            r == crate::native::as_c_spec(crate::parse::parse_native_spec(trim_spaces(self@))->0),
    {
        self.to_native().as_c()
    }

    /// The canonical integer conversion, re-encoded.
    pub fn to_z(&self) -> (r: Repr)
        requires
            crate::parse::parse_native_spec(trim_spaces(self@)) is Some,
        ensures
            r@ == padded(
                encode_native(
                    crate::native::fix_spec(
                        Native::Integer(
                            crate::native::as_z_spec(
                                crate::parse::parse_native_spec(trim_spaces(self@))->0,
                            ) as i64,
                        ),
                    ),
                ),
            ),
    {
        let v = self.to_native().to_z();
        repr_native(v)
    }

    /// The canonical real conversion, re-encoded.
    pub fn to_r(&self) -> (r: Repr)
        requires
            crate::parse::parse_native_spec(trim_spaces(self@)) is Some,
        ensures
            r@ == padded(
                encode_native(
                    crate::native::fix_spec(
                        Native::Real(
                            crate::native::as_r_spec(
                                crate::parse::parse_native_spec(trim_spaces(self@))->0,
                            ),
                        ),
                    ),
                ),
            ),
    {
        let v = self.to_native().to_r();
        repr_native(v)
    }

    /// The canonical quotient conversion, re-encoded: succeeds exactly
    /// where a quotient form exists and its canonical form passes the
    /// domain check.
    pub fn to_q(&self) -> (r: Result<Repr, NativeError>)
        requires
            crate::parse::parse_native_spec(trim_spaces(self@)) is Some,
        ensures
            r is Ok <==> (crate::native::as_q_spec(
                crate::parse::parse_native_spec(trim_spaces(self@))->0,
            ) matches Some(q) && crate::native::check_ok(
                crate::native::fix_spec(Native::Quotient(q.0 as i64, q.1 as i64)),
            )),
            r matches Ok(out) ==> crate::native::as_q_spec(
                crate::parse::parse_native_spec(trim_spaces(self@))->0,
            ) matches Some(q) && out@ == padded(
                encode_native(
                    crate::native::fix_spec(Native::Quotient(q.0 as i64, q.1 as i64)),
                ),
            ),
            r matches Err(e) ==> e.0@ == "numerator or denominator beyond 999999"@,
    {
        let n = self.to_native();
        match n.to_q() {
            Ok(v) => {
                match v.check() {
                    Ok(v) => Ok(repr_native(v)),
                    Err(e) => Err(e),
                }
            },
            Err(e) => Err(e),
        }
    }

    /// The canonical complex conversion, re-encoded.
    pub fn to_c(&self) -> (r: Repr)
        requires
            crate::parse::parse_native_spec(trim_spaces(self@)) is Some,
        ensures
            r@ == padded(
                encode_native(
                    crate::native::fix_spec(
                        Native::Complex(
                            crate::native::as_c_spec(
                                crate::parse::parse_native_spec(trim_spaces(self@))->0,
                            ).0,
                            crate::native::as_c_spec(
                                crate::parse::parse_native_spec(trim_spaces(self@))->0,
                            ).1,
                        ),
                    ),
                ),
            ),
    {
        let v = self.to_native().to_c();
        repr_native(v)
    }

    /// Display the represented value under a mode.
    pub fn disp(&self, disp: crate::disp::NumDisplay) -> (r: String)
        requires
            crate::parse::parse_native_spec(trim_spaces(self@)) is Some,
        ensures
            r@ == crate::text::chars_of(
                crate::disp::disp_native_spec(
                    crate::parse::parse_native_spec(trim_spaces(self@))->0,
                    disp,
                ),
            ),
    {
        let v = self.to_native();
        v.disp(disp)
    }
}

} // verus!
