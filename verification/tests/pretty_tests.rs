//! The pretty-printer's behavior on escapes, shortening, and arbitrary
//! bytes.

use flical::pretty::pretty;
use std::num::Wrapping;

// A simple linear congruential generator (constants by D. Knuth), to vary
// the fuzzing input; the output is not checked, only that nothing panics.
const A: Wrapping<u64> = Wrapping(6364136223846793005);
const B: Wrapping<u64> = Wrapping(1442695040888963407);

fn lcr(seed: &mut u64) -> u8 {
    let x = (A * Wrapping(*seed) + B).0;
    *seed = x;
    x as u8
}

#[test]
fn test_pretty_some() {
  assert_eq!(pretty(b"", 0), "");
  assert_eq!(pretty(b"", 10), "");

  assert_eq!(pretty(b"normal text", 0), "normal text");
  assert_eq!(pretty("Schönen Tag!".as_bytes(), 0), "Schönen Tag!");
  assert_eq!(pretty(b"\0\x01\x07\x13\\\x1f", 0), r"\0\x01\x07\x13\\\x1f");
  assert_eq!(pretty(b"ASCII text\tand tab", 0), r"ASCII text\tand tab");
  assert_eq!(pretty(b"-\xf0\x80-\xee", 0), r"-\Uf080;-\Uee;");
  assert_eq!(pretty(b"abcd\x00ef\xfegh", 0), r"abcd\0ef\Ufe;gh");

  assert_eq!(pretty(b"normal text", 8), "norm⠤ext");
  assert_eq!(pretty("Schönen Tag!".as_bytes(), 8), "Schö⠤ag!");
  assert_eq!(pretty(b"\0\x01\x07\x13\\\x1f", 3), r"\0⠤\x1f");
  assert_eq!(pretty(b"\0\x01\x07\x13\\\x1f", 4), r"\0⠤\x1f");
  assert_eq!(pretty(b"\0\x01\x07\x13\\\x1f", 5), r"\0⠤\x1f");
  assert_eq!(pretty(b"\0\x01\x07\x13\\\x1f", 6), r"\0\x01\x07\x13\\\x1f");
  assert_eq!(pretty(b"ASCII text\tand tab", 8), r"ASCI⠤tab");
  assert_eq!(pretty(b"-\xf0\x80-\xee", 3), r"-⠤\Uee;");
  assert_eq!(pretty(b"-\xf0\x80-\xee", 4), r"-\Uf0;⠤\Uee;");
  assert_eq!(pretty(b"-\xf0\x80-\xee", 5), r"-\Uf080;-\Uee;");
  assert_eq!(pretty(b"abcd\x00ef\xfegh", 5), r"ab⠤gh");
  assert_eq!(pretty(b"abcd\x00ef\xfegh", 6), r"abc⠤gh");
  assert_eq!(pretty(b"abcd\x00ef\xfegh", 7), r"abc⠤gh");
  assert_eq!(pretty(b"abcd\x00ef\xfegh", 8), r"abcd⠤gh");
  assert_eq!(pretty(b"abcd\x00ef\xfegh", 9), r"abcd⠤\Ufe;gh");
  assert_eq!(pretty(b"abcd\x00ef\xfegh", 10), r"abcd\0ef\Ufe;gh");
}

#[test]
fn test_pretty_long() {
  let long = "x".repeat(1000000);
  let long_bytes = long.as_bytes();
  let x9 = "x".repeat(9);
  let x99 = "x".repeat(99);
  let x999 = "x".repeat(999);
  let x9999 = "x".repeat(9999);
  let x99999 = "x".repeat(99999);
  assert_eq!(pretty(long_bytes, 0), long);
  assert_eq!(pretty(long_bytes, 20), format!("{x9}x⠤{x9}"));
  assert_eq!(pretty(long_bytes, 200), format!("{x99}x⠤{x99}"));

  // switching to assert!() because of too long error messages
  assert!(pretty(long_bytes, 2000) == format!("{x999}x⠤{x999}"));
  assert!(pretty(long_bytes, 20000) == format!("{x9999}x⠤{x9999}"));
  assert!(pretty(long_bytes, 200000) == format!("{x99999}x⠤{x99999}"));
}

#[test]
fn test_pretty_short() {
  assert_eq!(pretty(b"a", 0), "a");
  assert_eq!(pretty("ä".as_bytes(), 0), "ä");
  assert_eq!(pretty(b"ab", 0), "ab");
  assert_eq!(pretty("äa".as_bytes(), 0), "äa");
  assert_eq!(pretty("aä".as_bytes(), 0), "aä");
  assert_eq!(pretty("äö".as_bytes(), 0), "äö");
  assert_eq!(pretty(b" \n", 0), " \\n");

  assert_eq!(pretty(b"a", 1), "a");
  assert_eq!(pretty("ä".as_bytes(), 1), "ä");
  assert_eq!(pretty(b"ab", 1), "ab");
  assert_eq!(pretty("äa".as_bytes(), 1), "äa");
  assert_eq!(pretty("aä".as_bytes(), 1), "aä");
  assert_eq!(pretty("äö".as_bytes(), 1), "äö");
  assert_eq!(pretty(b" \n", 1), " \\n");

  assert_eq!(pretty(b"a", 2), "a");
  assert_eq!(pretty("ä".as_bytes(), 2), "ä");
  assert_eq!(pretty(b"ab", 2), "ab");
  assert_eq!(pretty("äa".as_bytes(), 2), "äa");
  assert_eq!(pretty("aä".as_bytes(), 2), "aä");
  assert_eq!(pretty("äö".as_bytes(), 2), "äö");
  assert_eq!(pretty(b" \n", 2), " \\n");

  assert_eq!(pretty(b"a", 3), "a");
  assert_eq!(pretty("ä".as_bytes(), 3), "ä");
  assert_eq!(pretty(b"ab", 3), "ab");
  assert_eq!(pretty("äa".as_bytes(), 3), "äa");
  assert_eq!(pretty("aä".as_bytes(), 3), "aä");
  assert_eq!(pretty("äö".as_bytes(), 3), "äö");
  assert_eq!(pretty(b" \n", 3), " \\n");
}

#[test]
fn test_pretty_iterative() {
  let s = ["abcdefghijklmn", "Höflichkeit 💩 été à Li 李"];
  let t = ["a⠤n", "H⠤李"];
  let b = s.iter().map(|s| s.as_bytes()).collect::<Vec<_>>();
  for i in 0..s.len() {
    assert_eq!(pretty(b[i], 0), s[i], "string {i} iteration 0");
    for j in 1..4 {
      assert_eq!(pretty(b[i], j), t[i], "string {i} iteration {j}");
    }
  }

  assert_eq!(pretty(b[0], 1), "a⠤n");
  assert_eq!(pretty(b[0], 2), "a⠤n");
  assert_eq!(pretty(b[0], 3), "a⠤n");
  assert_eq!(pretty(b[0], 4), "ab⠤n");
  assert_eq!(pretty(b[0], 5), "ab⠤mn");
  assert_eq!(pretty(b[0], 6), "abc⠤mn");
  assert_eq!(pretty(b[0], 7), "abc⠤lmn");
  assert_eq!(pretty(b[0], 8), "abcd⠤lmn");
  assert_eq!(pretty(b[0], 9), "abcd⠤klmn");
  assert_eq!(pretty(b[0], 10), "abcde⠤klmn");
  assert_eq!(pretty(b[0], 11), "abcde⠤jklmn");
  assert_eq!(pretty(b[0], 12), "abcdef⠤jklmn");
  assert_eq!(pretty(b[0], 13), "abcdef⠤ijklmn");
  assert_eq!(pretty(b[0], 14), "abcdefghijklmn");
  assert_eq!(pretty(b[1], 10), "Höfli⠤Li 李");
  assert_eq!(pretty(b[1], 11), "Höfli⠤ Li 李");
  assert_eq!(pretty(b[1], 12), "Höflic⠤ Li 李");
  assert_eq!(pretty(b[1], 13), "Höflic⠤à Li 李");
  assert_eq!(pretty(b[1], 14), "Höflich⠤à Li 李");
  assert_eq!(pretty(b[1], 15), "Höflich⠤ à Li 李");
  assert_eq!(pretty(b[1], 16), "Höflichk⠤ à Li 李");
  assert_eq!(pretty(b[1], 17), "Höflichk⠤é à Li 李");
  assert_eq!(pretty(b[1], 18), "Höflichke⠤é à Li 李");
  assert_eq!(pretty(b[1], 19), "Höflichke⠤té à Li 李");
  assert_eq!(pretty(b[1], 20), "Höflichkei⠤té à Li 李");
  assert_eq!(pretty(b[1], 21), "Höflichkei⠤été à Li 李");
  assert_eq!(pretty(b[1], 22), "Höflichkeit⠤été à Li 李");
  assert_eq!(pretty(b[1], 23), "Höflichkeit⠤ été à Li 李");
  assert_eq!(pretty(b[1], 24), "Höflichkeit 💩 été à Li 李");
  assert_eq!(pretty(b[1], 25), "Höflichkeit 💩 été à Li 李");
}

// A simple fuzzer looking only for panics: the output itself is not
// checked.
#[test]
fn fuzzy_pretty() {
  let seed = &mut 0u64;

  // run many times to see whether panics are triggered
  for _ in 0..1000 {
    let s = rand_bytes(seed);
    let bytes = s.as_slice();
    pretty(bytes, 0);

    let n = bytes.len() as u8;
    pretty(bytes, (lcr(seed) % n) as usize);

    if n > 10 {
      pretty(bytes, (10 + lcr(seed) % (n - 10)) as usize);
    }
  }
  let _ = pretty(b"asdf", 0);
}

fn rand_bytes(seed: &mut u64) -> Vec<u8> {
  let n = lcr(seed) as usize | (lcr(seed) as usize) >> 8;
  let mut v = Vec::with_capacity(n as usize);
  for _ in 0..n {
    v.push(lcr(seed))
  }
  v
}

