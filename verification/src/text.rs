//! Shared text primitives: the two trusted `String`-building specifications
//! and verified ASCII formatting helpers (decimal and hexadecimal digits,
//! byte-to-string conversion, searching).

use vstd::prelude::*;
use vstd::string::StringSliceAdditionalSpecFns;

verus! {

/// Relies on `String::push`: appends exactly the one character.
pub assume_specification[ String::push ](s: &mut String, c: char)
    ensures
        final (s)@ == old(s)@.push(c),
;

/// Relies on `String::push_str`: appends exactly the given characters.
pub assume_specification[ String::push_str ](s: &mut String, other: &str)
    ensures
        final (s)@ == old(s)@ + other@,
;

/// ASCII bytes reinterpreted as characters.
pub open spec fn chars_of(bs: Seq<u8>) -> Seq<char> {
    bs.map(|i: int, b: u8| b as char)
}

/// The decimal digits of `m >= 0`, most significant first.
pub open spec fn digits_of(m: int) -> Seq<u8>
    decreases m,
{
    if m < 10 {
        seq![(48 + m) as u8]
    } else {
        digits_of(m / 10).push((48 + m % 10) as u8)
    }
}

/// Digits are ASCII.
pub proof fn lemma_digits_ascii_all(m: int)
    requires
        m >= 0,
    ensures
        all_ascii(digits_of(m)),
    decreases m,
{
    if m >= 10 {
        lemma_digits_ascii_all(m / 10);
        assert forall|i: int| 0 <= i < digits_of(m).len() implies digits_of(m)[i] < 128 by {
            if i < digits_of(m).len() - 1 {
                assert(digits_of(m)[i] == digits_of(m / 10)[i]);
            }
        }
    }
}

/// ASCII text stays ASCII under appending ASCII text.
pub proof fn lemma_ascii_append(a: Seq<u8>, b: Seq<u8>)
    requires
        all_ascii(a),
        all_ascii(b),
    ensures
        all_ascii(a + b),
{
    assert forall|i: int| 0 <= i < (a + b).len() implies (a + b)[i] < 128 by {
        if i < a.len() {
            assert((a + b)[i] == a[i]);
        } else {
            assert((a + b)[i] == b[i - a.len()]);
        }
    }
}

/// Append the decimal digits of `m`.
pub fn push_u64_digits(out: &mut Vec<u8>, m: u64)
    ensures
        final (out)@ == old(out)@ + digits_of(m as int),
        all_ascii(old(out)@) ==> all_ascii(final (out)@),
    decreases m,
{
    proof {
        if all_ascii(out@) {
            lemma_digits_ascii_all(m as int);
            lemma_ascii_append(out@, digits_of(m as int));
        }
    }
    if m < 10 {
        out.push(48 + (m as u8));
        proof {
            assert(final (out)@ =~= old(out)@ + digits_of(m as int));
        }
    } else {
        push_u64_digits(out, m / 10);
        out.push(48 + ((m % 10) as u8));
        proof {
            assert(final (out)@ =~= old(out)@ + digits_of(m as int));
        }
    }
}

/// The decimal text of a signed integer: a minus sign for a negative value,
/// then the digits of its magnitude.
pub open spec fn int_text(z: int) -> Seq<u8> {
    if z < 0 {
        seq![45u8] + digits_of(-z)
    } else {
        digits_of(z)
    }
}

/// Append the decimal digits of a wide value.
pub fn push_u128_digits(out: &mut Vec<u8>, m: u128)
    ensures
        final (out)@ == old(out)@ + digits_of(m as int),
        all_ascii(old(out)@) ==> all_ascii(final (out)@),
    decreases m,
{
    proof {
        if all_ascii(out@) {
            lemma_digits_ascii_all(m as int);
            lemma_ascii_append(out@, digits_of(m as int));
        }
    }
    if m < 10 {
        out.push(48 + (m as u8));
        proof {
            assert(final (out)@ =~= old(out)@ + digits_of(m as int));
        }
    } else {
        push_u128_digits(out, m / 10);
        out.push(48 + ((m % 10) as u8));
        proof {
            assert(final (out)@ =~= old(out)@ + digits_of(m as int));
        }
    }
}

/// Append the decimal text of `z`.
pub fn push_i64_text(out: &mut Vec<u8>, z: i64)
    ensures
        final (out)@ == old(out)@ + int_text(z as int),
        all_ascii(old(out)@) ==> all_ascii(final (out)@),
{
    proof {
        if all_ascii(out@) {
            if z < 0 {
                lemma_digits_ascii_all(-(z as int));
                lemma_ascii_append(out@, int_text(z as int));
            } else {
                lemma_digits_ascii_all(z as int);
                lemma_ascii_append(out@, int_text(z as int));
            }
        }
    }
    if z < 0 {
        out.push(45);
        let mag: u64 = if z == i64::MIN {
            9_223_372_036_854_775_808u64
        } else {
            (-z) as u64
        };
        push_u64_digits(out, mag);
        proof {
            assert(final (out)@ =~= old(out)@ + int_text(z as int));
        }
    } else {
        push_u64_digits(out, z as u64);
    }
}

/// The hexadecimal digits of `m >= 0`, most significant first; `upper`
/// selects the letter case.
pub open spec fn hex_digits_of(m: int, upper: bool) -> Seq<u8>
    decreases m,
{
    let dig = m % 16;
    let b: u8 = if dig < 10 {
        (48 + dig) as u8
    } else if upper {
        (65 + dig - 10) as u8
    } else {
        (97 + dig - 10) as u8
    };
    if m < 16 {
        seq![b]
    } else {
        hex_digits_of(m / 16, upper).push(b)
    }
}

/// Append the hexadecimal digits of `m`.
pub fn push_u64_hex(out: &mut Vec<u8>, m: u64, upper: bool)
    ensures
        final (out)@ == old(out)@ + hex_digits_of(m as int, upper),
    decreases m,
{
    let dig = (m % 16) as u8;
    let b: u8 = if dig < 10 {
        48 + dig
    } else if upper {
        65 + dig - 10
    } else {
        97 + dig - 10
    };
    if m >= 16 {
        push_u64_hex(out, m / 16, upper);
    }
    out.push(b);
    proof {
        assert(final (out)@ =~= old(out)@ + hex_digits_of(m as int, upper));
    }
}

/// Are all bytes ASCII?
pub open spec fn all_ascii(bs: Seq<u8>) -> bool {
    forall|i: int| 0 <= i < bs.len() ==> bs[i] < 128
}

/// The string of a sequence of ASCII bytes.
pub fn ascii_string(v: &Vec<u8>) -> (r: String)
    requires
        all_ascii(v@),
    ensures
        r@ == chars_of(v@),
{
    let mut s = String::new();
    let mut i: usize = 0;
    while i < v.len()
        invariant
            i <= v@.len(),
            s@ == chars_of(v@.take(i as int)),
            all_ascii(v@),
        decreases v@.len() - i,
    {
        s.push(v[i] as char);
        proof {
            assert(s@ =~= chars_of(v@.take(i + 1)));
        }
        i = i + 1;
    }
    proof {
        assert(v@.take(v@.len() as int) =~= v@);
    }
    s
}

/// The string of a character vector.
pub fn chars_string(v: &Vec<char>) -> (r: String)
    ensures
        r@ == v@,
{
    let mut s = String::new();
    let mut i: usize = 0;
    while i < v.len()
        invariant
            i <= v@.len(),
            s@ == v@.take(i as int),
        decreases v@.len() - i,
    {
        s.push(v[i]);
        proof {
            assert(s@ =~= v@.take(i + 1));
        }
        i = i + 1;
    }
    proof {
        assert(v@.take(v@.len() as int) =~= v@);
    }
    s
}

/// ASCII text has ASCII bytes, one per character.
pub proof fn lemma_ascii_str_bytes(s: &str)
    requires
        vstd::string::is_ascii(s),
    ensures
        all_ascii(s.spec_bytes()),
        s.spec_bytes().len() == s@.len(),
{
    vstd::utf8::is_ascii_chars_encode_utf8(s@);
    assert forall|i: int| 0 <= i < s.spec_bytes().len() implies s.spec_bytes()[i] < 128 by {
        assert(s@[i] as u8 == s.spec_bytes()[i]);
        assert('\0' <= s@[i] <= '\u{7f}');
    }
}

/// ASCII bytes read as characters encode back to the same bytes.
pub proof fn lemma_ascii_bytes_roundtrip(bs: Seq<u8>)
    requires
        all_ascii(bs),
    ensures
        vstd::utf8::encode_utf8(chars_of(bs)) == bs,
{
    let cs = chars_of(bs);
    assert(vstd::utf8::is_ascii_chars(cs));
    vstd::utf8::is_ascii_chars_encode_utf8(cs);
    assert(vstd::utf8::encode_utf8(cs) =~= bs);
}

/// A one-character ASCII string's bytes are that character's code.
pub proof fn lemma_ascii_str_bytes_single(s: &str, c: char)
    requires
        '\0' <= c <= '\u{7f}',
        s@ == seq![c],
    ensures
        s.spec_bytes() =~= seq![c as u8],
        vstd::string::is_ascii(s),
{
    assert(vstd::utf8::is_ascii_chars(s@));
    vstd::utf8::is_ascii_chars_encode_utf8(s@);
    assert(s.spec_bytes() =~= seq![c as u8]);
}

/// The bytes of a string slice (its UTF-8 encoding).
pub fn str_bytes(s: &str) -> (r: Vec<u8>)
    ensures
        r@ == s.spec_bytes(),
{
    let bs = s.as_bytes();
    let mut v: Vec<u8> = Vec::new();
    let mut i: usize = 0;
    while i < bs.len()
        invariant
            i <= bs@.len(),
            v@ == bs@.take(i as int),
            bs@ == s.spec_bytes(),
        decreases bs@.len() - i,
    {
        v.push(bs[i]);
        proof {
            assert(v@ =~= bs@.take(i + 1));
        }
        i = i + 1;
    }
    proof {
        assert(bs@.take(bs@.len() as int) =~= bs@);
    }
    v
}

} // verus!

verus! {

/// Are two texts equal?  Decided on the UTF-8 bytes; equal bytes decode to
/// equal characters and unequal ones cannot encode the same.
pub fn str_eq(a: &str, b: &str) -> (r: bool)
    ensures
        r <==> a@ == b@,
{
    let ab = a.as_bytes();
    let bb = b.as_bytes();
    proof {
        broadcast use vstd::utf8::encode_utf8_decode_utf8;

    }
    if ab.len() != bb.len() {
        proof {
            assert(a@ != b@);
        }
        return false;
    }
    let mut i: usize = 0;
    while i < ab.len()
        invariant
            i <= ab@.len() == bb@.len(),
            ab@ == a.spec_bytes(),
            bb@ == b.spec_bytes(),
            forall|j: int| 0 <= j < i ==> ab@[j] == bb@[j],
        decreases ab@.len() - i,
    {
        if ab[i] != bb[i] {
            proof {
                broadcast use vstd::utf8::encode_utf8_decode_utf8;

                assert(a@ != b@);
            }
            return false;
        }
        i = i + 1;
    }
    proof {
        assert(a.spec_bytes() =~= b.spec_bytes());
        broadcast use vstd::utf8::encode_utf8_decode_utf8;

        assert(vstd::utf8::decode_utf8(a.spec_bytes()) == a@);
        assert(vstd::utf8::decode_utf8(b.spec_bytes()) == b@);
    }
    true
}

} // verus!
