//! Pretty-printing of byte slices that may hold invalid UTF-8: control
//! bytes are escaped (`\xhh` and the named escapes), runs of invalid bytes
//! become `\Uhh..hh;`, and a positive width shortens the text around a gap
//! mark in the middle.

use vstd::prelude::*;

verus! {

/// Is the byte a UTF-8 continuation byte?
pub open spec fn is_cont(b: u8) -> bool {
    0x80 <= b <= 0xBF
}

/// The length of a valid UTF-8 scalar encoding at `i`, or zero when the
/// bytes there are not one.
pub open spec fn char_len(s: Seq<u8>, i: int) -> int {
    let b0 = s[i];
    if i >= s.len() {
        0
    } else if b0 < 0x80 {
        1
    } else if 0xC2 <= b0 <= 0xDF {
        if i + 1 < s.len() && is_cont(s[i + 1]) {
            2
        } else {
            0
        }
    } else if b0 == 0xE0 {
        if i + 2 < s.len() && 0xA0 <= s[i + 1] <= 0xBF && is_cont(s[i + 2]) {
            3
        } else {
            0
        }
    } else if 0xE1 <= b0 <= 0xEC || 0xEE <= b0 <= 0xEF {
        if i + 2 < s.len() && is_cont(s[i + 1]) && is_cont(s[i + 2]) {
            3
        } else {
            0
        }
    } else if b0 == 0xED {
        if i + 2 < s.len() && 0x80 <= s[i + 1] <= 0x9F && is_cont(s[i + 2]) {
            3
        } else {
            0
        }
    } else if b0 == 0xF0 {
        if i + 3 < s.len() && 0x90 <= s[i + 1] <= 0xBF && is_cont(s[i + 2]) && is_cont(s[i + 3]) {
            4
        } else {
            0
        }
    } else if 0xF1 <= b0 <= 0xF3 {
        if i + 3 < s.len() && is_cont(s[i + 1]) && is_cont(s[i + 2]) && is_cont(s[i + 3]) {
            4
        } else {
            0
        }
    } else if b0 == 0xF4 {
        if i + 3 < s.len() && 0x80 <= s[i + 1] <= 0x8F && is_cont(s[i + 2]) && is_cont(s[i + 3]) {
            4
        } else {
            0
        }
    } else {
        0
    }
}

/// The code point of the valid scalar encoding at `i`.
pub open spec fn char_code(s: Seq<u8>, i: int) -> int {
    let n = char_len(s, i);
    if n == 1 {
        s[i] as int
    } else if n == 2 {
        (s[i] - 0xC0) * 0x40 + (s[i + 1] - 0x80)
    } else if n == 3 {
        (s[i] - 0xE0) * 0x1000 + (s[i + 1] - 0x80) * 0x40 + (s[i + 2] - 0x80)
    } else {
        (s[i] - 0xF0) * 0x40000 + (s[i + 1] - 0x80) * 0x1000 + (s[i + 2] - 0x80) * 0x40 + (s[i + 3]
            - 0x80)
    }
}

/// The lowercase hex digit of a value below 16.
pub open spec fn hex_char(d: int) -> char {
    if d < 10 {
        ((48 + d) as u8) as char
    } else {
        ((97 + d - 10) as u8) as char
    }
}

/// The escape of one character: the named escapes, `\xhh` for an ASCII
/// control byte, the character itself otherwise.
pub open spec fn esc_char(c: char) -> Seq<char> {
    if c == '\\' {
        seq!['\\', '\\']
    } else if c == '\r' {
        seq!['\\', 'r']
    } else if c == '\n' {
        seq!['\\', 'n']
    } else if c == '\t' {
        seq!['\\', 't']
    } else if c == '\u{0}' {
        seq!['\\', '0']
    } else if c < '\u{20}' || c == '\u{7f}' {
        seq!['\\', 'x', hex_char(c as int / 16), hex_char(c as int % 16)]
    } else {
        seq![c]
    }
}

/// How many input bytes the item at `i` covers (an invalid byte is one item).
pub open spec fn item_len(s: Seq<u8>, i: int) -> int {
    if char_len(s, i) == 0 {
        1
    } else {
        char_len(s, i)
    }
}

/// The characters the item at `i` shows (an invalid byte shows as two hex
/// digits; its `\U` frame is added when runs are coalesced).
pub open spec fn item_chars(s: Seq<u8>, i: int) -> Seq<char> {
    if char_len(s, i) == 0 {
        seq![hex_char(s[i] as int / 16), hex_char(s[i] as int % 16)]
    } else {
        esc_char(char_code(s, i) as char)
    }
}

/// The rendering of the items from `i` to `end` (item boundaries), with
/// invalid runs framed by `\U` and `;`; `invalid` says whether a run is
/// open.
pub open spec fn coalesced_range(s: Seq<u8>, i: int, end: int, invalid: bool) -> Seq<char>
    decreases end - i,
{
    if i >= end {
        if invalid {
            seq![';']
        } else {
            Seq::<char>::empty()
        }
    } else {
        let v = char_len(s, i) != 0;
        let pre: Seq<char> = if v && invalid {
            seq![';']
        } else if !v && !invalid {
            seq!['\\', 'U']
        } else {
            Seq::<char>::empty()
        };
        let next: int = if i + item_len(s, i) <= end {
            i + item_len(s, i)
        } else {
            end
        };
        pre + item_chars(s, i) + coalesced_range(s, next, end, !v)
    }
}

/// Where the leading part ends: items are taken while the accumulated
/// character count stays below the half width.
pub open spec fn part1_end(s: Seq<u8>, i: int, cc: int, w2: int) -> (int, int)
    decreases s.len() - i,
{
    if i >= s.len() || cc >= w2 || item_len(s, i) <= 0 {
        (i, cc)
    } else {
        part1_end(s, i + item_len(s, i), cc + item_chars(s, i).len(), w2)
    }
}

/// Relies on `char::from_u32`, documented to return the character of every
/// non-surrogate code point up to the maximum scalar.
#[verifier::external_body]
fn char_from_u32(u: u32) -> (r: char)
    requires
        u < 0xD800 || (0xE000 <= u < 0x110000),
    ensures
        r as int == u as int,
{
    char::from_u32(u).unwrap_or(' ')
}

/// The length of the scalar encoding at `i`, or zero.
fn scan_char_len(s: &Vec<u8>, i: usize) -> (r: u8)
    requires
        i < s@.len(),
    ensures
        r as int == char_len(s@, i as int),
{
    let b0 = s[i];
    let n = s.len();
    if b0 < 0x80 {
        1
    } else if 0xC2 <= b0 && b0 <= 0xDF {
        if n - i > 1 && 0x80 <= s[i + 1] && s[i + 1] <= 0xBF {
            2
        } else {
            0
        }
    } else if b0 == 0xE0 {
        if n - i > 2 && 0xA0 <= s[i + 1] && s[i + 1] <= 0xBF && 0x80 <= s[i + 2] && s[i + 2]
            <= 0xBF {
            3
        } else {
            0
        }
    } else if (0xE1 <= b0 && b0 <= 0xEC) || (0xEE <= b0 && b0 <= 0xEF) {
        if n - i > 2 && 0x80 <= s[i + 1] && s[i + 1] <= 0xBF && 0x80 <= s[i + 2] && s[i + 2]
            <= 0xBF {
            3
        } else {
            0
        }
    } else if b0 == 0xED {
        if n - i > 2 && 0x80 <= s[i + 1] && s[i + 1] <= 0x9F && 0x80 <= s[i + 2] && s[i + 2]
            <= 0xBF {
            3
        } else {
            0
        }
    } else if b0 == 0xF0 {
        if n - i > 3 && 0x90 <= s[i + 1] && s[i + 1] <= 0xBF && 0x80 <= s[i + 2] && s[i + 2]
            <= 0xBF && 0x80 <= s[i + 3] && s[i + 3] <= 0xBF {
            4
        } else {
            0
        }
    } else if 0xF1 <= b0 && b0 <= 0xF3 {
        if n - i > 3 && 0x80 <= s[i + 1] && s[i + 1] <= 0xBF && 0x80 <= s[i + 2] && s[i + 2]
            <= 0xBF && 0x80 <= s[i + 3] && s[i + 3] <= 0xBF {
            4
        } else {
            0
        }
    } else if b0 == 0xF4 {
        if n - i > 3 && 0x80 <= s[i + 1] && s[i + 1] <= 0x8F && 0x80 <= s[i + 2] && s[i + 2]
            <= 0xBF && 0x80 <= s[i + 3] && s[i + 3] <= 0xBF {
            4
        } else {
            0
        }
    } else {
        0
    }
}

/// The character of the valid scalar encoding at `i`.
fn scan_char(s: &Vec<u8>, i: usize, n: u8) -> (r: char)
    requires
        i < s@.len(),
        n as int == char_len(s@, i as int),
        1 <= n,
    ensures
        r as int == char_code(s@, i as int),
{
    let total = s.len();
    proof {
        assert(n >= 2 ==> 0x80 <= s@[i + 1] < 0xC0);
        assert(n >= 3 ==> 0x80 <= s@[i + 2] < 0xC0);
        assert(n >= 4 ==> 0x80 <= s@[i + 3] < 0xC0);
        assert(n >= 2 ==> i + 1 < s@.len());
        assert(n >= 3 ==> i + 2 < s@.len());
        assert(n >= 4 ==> i + 3 < s@.len());
        assert(n == 2 ==> 0xC2 <= s@[i as int] <= 0xDF);
        assert(n == 3 ==> 0xE0 <= s@[i as int] <= 0xEF);
        assert(n == 4 ==> 0xF0 <= s@[i as int] <= 0xF4);
        assert(1 <= n <= 4);
    }
    if n == 1 {
        let c = char_from_u32(s[i] as u32);
        c
    } else if n == 2 {
        let b1 = s[i + 1];
        proof {
            assert(0x80 <= b1 < 0xC0);
        }
        char_from_u32((s[i] - 0xC0) as u32 * 0x40 + (b1 - 0x80) as u32)
    } else if n == 3 {
        let b1 = s[i + 1];
        let b2 = s[i + 2];
        proof {
            assert(0x80 <= b1 < 0xC0 && 0x80 <= b2 < 0xC0);
        }
        char_from_u32(
            (s[i] - 0xE0) as u32 * 0x1000 + (b1 - 0x80) as u32 * 0x40 + (b2 - 0x80) as u32,
        )
    } else {
        let b1 = s[i + 1];
        let b2 = s[i + 2];
        let b3 = s[i + 3];
        proof {
            assert(0x80 <= b1 < 0xC0 && 0x80 <= b2 < 0xC0 && 0x80 <= b3 < 0xC0);
        }
        char_from_u32(
            (s[i] - 0xF0) as u32 * 0x40000 + (b1 - 0x80) as u32 * 0x1000 + (b2 - 0x80) as u32
                * 0x40 + (b3 - 0x80) as u32,
        )
    }
}

/// Append the escape of one character.
fn push_esc(out: &mut Vec<char>, c: char)
    ensures
        final (out)@ == old(out)@ + esc_char(c),
{
    if c == '\\' {
        out.push('\\');
        out.push('\\');
    } else if c == '\r' {
        out.push('\\');
        out.push('r');
    } else if c == '\n' {
        out.push('\\');
        out.push('n');
    } else if c == '\t' {
        out.push('\\');
        out.push('t');
    } else if c == '\u{0}' {
        out.push('\\');
        out.push('0');
    } else if c < '\u{20}' || c == '\u{7f}' {
        out.push('\\');
        out.push('x');
        let u = c as u32;
        out.push(hex_digit_char((u / 16) as u8));
        out.push(hex_digit_char((u % 16) as u8));
    } else {
        out.push(c);
    }
    proof {
        assert(final (out)@ =~= old(out)@ + esc_char(c));
    }
}

/// The lowercase hex digit character.
fn hex_digit_char(d: u8) -> (r: char)
    requires
        d < 16,
    ensures
        r == hex_char(d as int),
{
    if d < 10 {
        (48 + d) as char
    } else {
        (97 + d - 10) as char
    }
}

/// Append the items from `i` to `end`, coalescing invalid runs.
fn push_coalesced(out: &mut Vec<char>, s: &Vec<u8>, i: usize, end: usize, invalid: bool)
    requires
        i <= end <= s@.len(),
    ensures
        final (out)@ == old(out)@ + coalesced_range(s@, i as int, end as int, invalid),
{
    let mut p = i;
    let mut inv = invalid;
    while p < end
        invariant
            i <= p <= end <= s@.len(),
            old(out)@ + coalesced_range(s@, i as int, end as int, invalid) =~= out@
                + coalesced_range(s@, p as int, end as int, inv),
        decreases end - p,
    {
        let ghost out_pre = out@;
        let ghost p_pre = p as int;
        let ghost inv_pre = inv;
        let n = scan_char_len(s, p);
        let v = n != 0;
        if v && inv {
            out.push(';');
        } else if !v && !inv {
            out.push('\\');
            out.push('U');
        }
        let step: usize = if v {
            n as usize
        } else {
            1
        };
        if v {
            let c = scan_char(s, p, n);
            proof {
                lemma_scalar_code(s@, p as int);
            }
            push_esc(out, c);
        } else {
            let b = s[p];
            out.push(hex_digit_char(b / 16));
            out.push(hex_digit_char(b % 16));
        }
        let next = if step <= end - p {
            p + step
        } else {
            end
        };
        p = next;
        inv = !v;
        proof {
            let delta = out@.skip(out_pre.len() as int);
            assert(out@ =~= out_pre + delta);
            assert(coalesced_range(s@, p_pre, end as int, inv_pre) =~= delta + coalesced_range(
                s@,
                p as int,
                end as int,
                inv,
            ));
            assert(out_pre + coalesced_range(s@, p_pre, end as int, inv_pre) =~= out@
                + coalesced_range(s@, p as int, end as int, inv));
        }
    }
    if inv {
        out.push(';');
    }
    proof {
        assert(final (out)@ =~= old(out)@ + coalesced_range(s@, i as int, end as int, invalid));
    }
}

/// A decoded code point is a scalar value (no surrogates, in range).
proof fn lemma_scalar_code(s: Seq<u8>, i: int)
    requires
        0 <= i < s.len(),
        char_len(s, i) != 0,
    ensures
        0 <= char_code(s, i) < 0xD800 || 0xE000 <= char_code(s, i) < 0x110000,
{
}

} // verus!

verus! {

/// The items of the byte text from `i` on: start position, character count,
/// byte length of each.
pub open spec fn items_from(s: Seq<u8>, i: int) -> Seq<(int, int, int)>
    decreases s.len() - i,
{
    if i < 0 || i >= s.len() {
        Seq::<(int, int, int)>::empty()
    } else {
        seq![(i, item_chars(s, i).len() as int, item_len(s, i))] + items_from(s, i + item_len(s, i))
    }
}

/// The backward scan of the trailing part: how many items fit the budget
/// (stopping at the first that does not), and the byte length of every item
/// tested (the failing one included).
pub open spec fn taken_rev(items: Seq<(int, int, int)>, j: int, acc: int, w2b: int) -> (
    int,
    int,
)
    decreases j,
{
    if j <= 0 {
        (0, 0)
    } else {
        let c = acc + items[j - 1].1;
        if c <= w2b {
            let r = taken_rev(items, j - 1, c, w2b);
            (r.0 + 1, r.1 + items[j - 1].2)
        } else {
            (0, items[j - 1].2)
        }
    }
}

/// The pretty text of a byte slice: escapes and coalesced invalid runs; a
/// positive width smaller than the byte length keeps about half the width
/// from each end around a gap mark.
pub open spec fn pretty_spec(s: Seq<u8>, width: int) -> Seq<char> {
    if s.len() == 0 {
        Seq::<char>::empty()
    } else if !(width > 0 && width < s.len()) {
        coalesced_range(s, 0, s.len() as int, false)
    } else {
        let w: int = if width < 3 {
            if s.len() < 3 {
                s.len() as int
            } else {
                3
            }
        } else {
            width
        };
        let w2: int = if w / 2 < 1 {
            1
        } else {
            w / 2
        };
        let p1 = part1_end(s, 0, 0, w2).0;
        let part1 = coalesced_range(s, 0, p1, false);
        let start2: int = if s.len() - 4 * w2 > p1 {
            s.len() - 4 * w2
        } else {
            p1
        };
        let s2 = s.skip(start2);
        let items = items_from(s2, 0);
        let w2b = w2 + w % 2 - 1;
        let tk = taken_rev(items, items.len() as int, 0, w2b);
        let cnt: int = if tk.0 < 1 {
            1
        } else {
            tk.0
        };
        let cnt: int = if cnt > w2b {
            w2b
        } else {
            cnt
        };
        let consumed = p1 + tk.1 >= s.len();
        if consumed {
            part1 + coalesced_range(s2, 0, s2.len() as int, false)
        } else {
            let from_idx = items.len() - cnt;
            let from_pos: int = if from_idx < items.len() {
                items[from_idx].0
            } else {
                s2.len() as int
            };
            part1 + seq!['\u{2824}'] + coalesced_range(s2, from_pos, s2.len() as int, false)
        }
    }
}

/// Collect the items of a byte text.
fn collect_items(s: &Vec<u8>) -> (r: Vec<(usize, usize, usize)>)
    ensures
        r@.len() == items_from(s@, 0).len(),
        forall|j: int|
            0 <= j < r@.len() ==> (#[trigger] r@[j].0 as int, r@[j].1 as int, r@[j].2 as int)
                == items_from(s@, 0)[j],
        forall|j: int| 0 <= j < r@.len() ==> (#[trigger] r@[j].0) <= s@.len(),
{
    let mut out: Vec<(usize, usize, usize)> = Vec::new();
    let mut i: usize = 0;
    let ghost all = items_from(s@, 0);
    while i < s.len()
        invariant
            i <= s@.len(),
            all == items_from(s@, 0),
            out@.len() <= all.len(),
            items_from(s@, 0) =~= out@.map(
                |j: int, t: (usize, usize, usize)| (t.0 as int, t.1 as int, t.2 as int),
            ) + items_from(s@, i as int),
            forall|j: int| 0 <= j < out@.len() ==> (#[trigger] out@[j].0) <= s@.len(),
        decreases s@.len() - i,
    {
        let n = scan_char_len(s, i);
        let step: usize = if n == 0 {
            1
        } else {
            n as usize
        };
        let cc: usize = if n == 0 {
            2
        } else {
            let c = scan_char(s, i, n);
            proof {
                lemma_scalar_code(s@, i as int);
            }
            esc_len(c)
        };
        out.push((i, cc, step));
        proof {
            assert(items_from(s@, 0) =~= out@.map(
                |j: int, t: (usize, usize, usize)| (t.0 as int, t.1 as int, t.2 as int),
            ) + items_from(s@, i + step));
        }
        i = i + step;
    }
    proof {
        assert(items_from(s@, 0) =~= out@.map(
            |j: int, t: (usize, usize, usize)| (t.0 as int, t.1 as int, t.2 as int),
        ));
        assert forall|j: int| 0 <= j < out@.len() implies (
        #[trigger] out@[j].0 as int,
        out@[j].1 as int,
        out@[j].2 as int,
        ) == items_from(s@, 0)[j] by {
            assert(items_from(s@, 0)[j] == out@.map(
                |j: int, t: (usize, usize, usize)| (t.0 as int, t.1 as int, t.2 as int),
            )[j]);
        }
    }
    out
}

/// The displayed width of one character's escape.
fn esc_len(c: char) -> (r: usize)
    ensures
        r == esc_char(c).len(),
        1 <= r <= 4,
{
    if c == '\\' || c == '\r' || c == '\n' || c == '\t' || c == '\u{0}' {
        2
    } else if c < '\u{20}' || c == '\u{7f}' {
        4
    } else {
        1
    }
}

/// The backward scan (see [`taken_rev`]).
fn take_rev(items: &Vec<(usize, usize, usize)>, j0: usize, acc0: u128, w2b: u128) -> (r: (
    usize,
    u128,
))
    requires
        j0 <= items@.len(),
        acc0 <= w2b,
        w2b <= 0xffff_ffff_ffff_ffffu128,
        forall|k: int| 0 <= k < items@.len() ==> (#[trigger] items@[k].2) <= 4,
    ensures
        (r.0 as int, r.1 as int) == taken_rev(
            items@.map(|q: int, t: (usize, usize, usize)| (t.0 as int, t.1 as int, t.2 as int)),
            j0 as int,
            acc0 as int,
            w2b as int,
        ),
        r.0 <= j0,
        r.1 <= 4 * (j0 as int),
{
    let ghost iv = items@.map(
        |q: int, t: (usize, usize, usize)| (t.0 as int, t.1 as int, t.2 as int),
    );
    let mut j = j0;
    let mut acc = acc0;
    let mut cnt: usize = 0;
    let mut ilen: u128 = 0;
    loop
        invariant
            j <= j0 <= items@.len(),
            acc <= w2b <= 0xffff_ffff_ffff_ffffu128,
            cnt + j <= j0,
            ilen + 4 * (j as int) <= 4 * (j0 as int),
            iv == items@.map(
                |q: int, t: (usize, usize, usize)| (t.0 as int, t.1 as int, t.2 as int),
            ),
            forall|k: int| 0 <= k < items@.len() ==> (#[trigger] items@[k].2) <= 4,
            ({
                let tr = taken_rev(iv, j as int, acc as int, w2b as int);
                taken_rev(iv, j0 as int, acc0 as int, w2b as int) == (
                    cnt + tr.0,
                    ilen + tr.1,
                )
            }),
        decreases j,
    {
        if j == 0 {
            return (cnt, ilen);
        }
        proof {
            assert(iv[j - 1] == (items@[j - 1].0 as int, items@[j - 1].1 as int, items@[j
                - 1].2 as int));
        }
        let c = acc + items[j - 1].1 as u128;
        if c <= w2b {
            cnt = cnt + 1;
            ilen = ilen + items[j - 1].2 as u128;
            acc = c;
            j = j - 1;
        } else {
            return (cnt, ilen + items[j - 1].2 as u128);
        }
    }
}

/// Pretty-print a byte slice, shortening to about `width` characters with a
/// gap mark in the middle (zero width keeps everything).
#[verifier::rlimit(100)]
#[verifier::spinoff_prover]
pub fn pretty(input: &[u8], width: usize) -> (r: String)
    ensures
        r@ == pretty_spec(input@, width as int),
{
    let mut s: Vec<u8> = Vec::new();
    let mut i: usize = 0;
    while i < input.len()
        invariant
            i <= input@.len(),
            s@ == input@.take(i as int),
        decreases input@.len() - i,
    {
        s.push(input[i]);
        proof {
            assert(s@ =~= input@.take(i + 1));
        }
        i = i + 1;
    }
    proof {
        assert(input@.take(input@.len() as int) =~= input@);
    }
    let len = s.len();
    if len == 0 {
        return String::new();
    }
    let shortened = width > 0 && width < len;
    if !shortened {
        let mut out: Vec<char> = Vec::new();
        push_coalesced(&mut out, &s, 0, len, false);
        return crate::text::chars_string(&out);
    }
    let w: usize = if width < 3 {
        if len < 3 {
            len
        } else {
            3
        }
    } else {
        width
    };
    let w2: usize = if w / 2 < 1 {
        1
    } else {
        w / 2
    };
    // the leading part
    let mut p1: usize = 0;
    let mut cc: u128 = 0;
    while p1 < s.len() && cc < w2 as u128
        invariant
            p1 <= s@.len(),
            cc <= 0xffff_ffff_ffff_ffff_0u128,
            part1_end(s@, 0, 0, w2 as int) == part1_end(s@, p1 as int, cc as int, w2 as int),
            w2 >= 1,
        decreases s@.len() - p1,
    {
        let n = scan_char_len(&s, p1);
        let step: usize = if n == 0 {
            1
        } else {
            n as usize
        };
        let icc: usize = if n == 0 {
            2
        } else {
            let c = scan_char(&s, p1, n);
            proof {
                lemma_scalar_code(s@, p1 as int);
            }
            esc_len(c)
        };
        p1 = p1 + step;
        cc = cc + icc as u128;
    }
    let mut out: Vec<char> = Vec::new();
    push_coalesced(&mut out, &s, 0, p1, false);
    // the trailing part
    let gap4: u128 = 4u128 * w2 as u128;
    let start2: usize = if (len as u128) >= gap4 && ((len as u128) - gap4) > (p1 as u128) {
        #[verifier::truncate]
        ((len as u128 - gap4) as usize)
    } else {
        p1
    };
    proof {
        assert(start2 as int == (if s@.len() - 4 * (w2 as int) > p1 as int {
            s@.len() - 4 * (w2 as int)
        } else {
            p1 as int
        }));
    }
    let s2 = crate::parse::sub_vec(&s, start2, len);
    let items = collect_items(&s2);
    proof {
        assert(s2@ =~= s@.skip(start2 as int));
        assert forall|k: int| 0 <= k < items@.len() implies (#[trigger] items@[k].2) <= 4 by {
            assert((items@[k].0 as int, items@[k].1 as int, items@[k].2 as int) == items_from(
                s2@,
                0,
            )[k]);
            lemma_items_bounds(s2@, 0, k);
        }
    }
    let w2b: u128 = w2 as u128 + (w % 2) as u128 - 1;
    let tk = take_rev(&items, items.len(), 0, w2b);
    proof {
        assert(items@.map(
            |q: int, t: (usize, usize, usize)| (t.0 as int, t.1 as int, t.2 as int),
        ) =~= items_from(s2@, 0));
    }
    let cnt0: usize = if tk.0 < 1 {
        1
    } else {
        tk.0
    };
    let cnt: usize = if (cnt0 as u128) > w2b {
        #[verifier::truncate]
        (w2b as usize)
    } else {
        cnt0
    };
    let consumed = p1 as u128 + tk.1 >= len as u128;
    if consumed {
        push_coalesced(&mut out, &s2, 0, s2.len(), false);
    } else {
        out.push('\u{2824}');
        proof {
            assert(s2@.len() > 0);
            assert(items_from(s2@, 0).len() >= 1);
            assert(cnt <= items@.len());
        }
        let from_idx = items.len() - cnt;
        let from_pos: usize = if from_idx < items.len() {
            let t = items[from_idx];
            proof {
                assert((t.0 as int, t.1 as int, t.2 as int) == items_from(s2@, 0)[from_idx as int]);
            }
            t.0
        } else {
            s2.len()
        };
        proof {
            if (from_idx as int) < items@.len() {
                lemma_items_bounds(s2@, 0, from_idx as int);
            }
        }
        push_coalesced(&mut out, &s2, from_pos, s2.len(), false);
    }
    proof {
        assert(s@ == input@);
        assert(part1_end(s@, 0, 0, w2 as int).0 == p1 as int);
        assert(out@ =~= pretty_spec(input@, width as int));
    }
    crate::text::chars_string(&out)
}

/// Item positions lie inside the text and item byte lengths are at most four.
proof fn lemma_items_bounds(s: Seq<u8>, i: int, k: int)
    requires
        0 <= i,
        0 <= k < items_from(s, i).len(),
    ensures
        i <= items_from(s, i)[k].0 <= s.len(),
        1 <= items_from(s, i)[k].2 <= 4,
    decreases s.len() - i,
{
    if i < s.len() {
        if k > 0 {
            lemma_items_bounds(s, i + item_len(s, i), k - 1);
        }
    }
}

} // verus!
