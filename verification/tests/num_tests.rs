//! Numbers: parsing, canonical encoding, domain promotion, conversions and
//! the display modes.

use flical::disp::NumDisplay;
use flical::num::Num;

#[test]
fn test_round() {
    assert_eq!(Num::decode("+oo").round().unwrap(), Num::p_inf());
    assert_eq!(Num::decode("12.5").round().unwrap(), Num::from_z(13));
    assert_eq!(Num::decode("-4.9").round().unwrap(), Num::decode("-5.0"));
}

#[test]
fn promotion_is_exact_on_exact_operands() {
    let two = Num::from_z(2);
    let half = Num::decode("1/2");
    assert_eq!(two.add_num(half).unwrap(), Num::decode("5/2"));
}

#[test]
fn quotient_arithmetic_reduces() {
    assert_eq!(Num::decode("4/6"), Num::decode("2/3"));
    let a = Num::decode("1/2");
    let b = Num::decode("1/3");
    assert_eq!(a.add_num(b).unwrap(), Num::decode("5/6"));
    assert_eq!(a.sub_num(b).unwrap(), Num::decode("1/6"));
    assert_eq!(Num::decode("2/3").mul_num(Num::decode("3/4")).unwrap(), Num::decode("1/2"));
    assert_eq!(a.div_num(Num::decode("1/4")).unwrap(), Num::from_z(2));
}

#[test]
fn canonical_round_trip() {
    for s in ["0", "42", "-1", "5/2", "-1/3", "+oo", "-oo", "3I3", "0I+oo"] {
        let n = Num::decode(s);
        assert_eq!(n.repr().to_str(), s);
        assert_eq!(Num::decode(&n.repr().to_str()), n);
    }
    let n = Num::decode("0.1");
    assert_eq!(n.repr().to_str(), ".1E0");
    assert_eq!(Num::decode(".1E0"), n);
}

#[test]
fn fix_collapses_domains() {
    // a quotient with denominator one becomes an integer
    assert_eq!(Num::decode("4/1"), Num::from_z(4));
    assert_eq!(Num::decode("8/4"), Num::from_z(2));
    // a complex with zero imaginary part becomes a real or an integer
    assert_eq!(Num::decode("3I0"), Num::from_z(3));
    assert_eq!(Num::decode("2.5I0"), Num::decode("2.5"));
    // an exactly integral real becomes an integer
    assert_eq!(Num::decode("42.0"), Num::from_z(42));
    // negative zero collapses to exact zero
    assert_eq!(Num::decode("-0.0"), Num::zero());
}

#[test]
fn precision_is_fourteen_digits() {
    // the fifteenth significant digit rounds away
    assert_eq!(Num::decode("1.23456789012345"), Num::decode("1.2345678901234"));
    assert_eq!(Num::decode("1.23456789012351"), Num::decode("1.2345678901235"));
    assert_eq!(Num::decode("44.4999999999994").to_z(), Num::from_z(44));
    assert_eq!(Num::decode("45.4999999999995").to_z(), Num::from_z(46));
}

#[test]
fn exponent_clamps_at_three_hundred() {
    assert_eq!(Num::decode("1e300"), Num::p_inf());
    assert_eq!(Num::decode("-1e300"), Num::m_inf());
    assert_eq!(Num::decode("1e-300"), Num::zero());
    assert_eq!(Num::decode("9.99e299").repr().to_str(), ".999E300");
    let big = Num::decode("9e299");
    assert_eq!(big.add_num(big).unwrap(), Num::p_inf());
}

#[test]
fn domain_check_rejects_large_quotients() {
    let e = Num::try_decode("1000000/3").unwrap_err();
    assert_eq!(e.0, "numerator or denominator beyond 999999");
    assert!(Num::try_decode("999999/7").is_ok());
    // results beyond the bound are rejected too
    let a = Num::decode("999999/2");
    let e = a.add_num(Num::decode("1/3")).unwrap_err();
    assert_eq!(e.0, "numerator or denominator beyond 999999");
    // while one reducing back into range is fine
    assert_eq!(a.add_num(a).unwrap(), Num::from_z(999999));
}

#[test]
fn malformed_text_is_a_parse_error() {
    assert_eq!(Num::try_decode("abc").unwrap_err().0, "invalid number");
    assert!(Num::try_decode("1e").is_err());
    assert!(Num::try_decode("").is_err());
    assert!(Num::try_decode("1/0").is_err());
    assert!(Num::try_decode("1.2.3").is_err());
}

#[test]
fn undefined_results_are_errors() {
    let e = Num::p_inf().sub_num(Num::p_inf()).unwrap_err();
    assert_eq!(e.0, "undefined number");
    assert!(Num::zero().div_num(Num::zero()).is_err());
    assert!(Num::zero().mul_num(Num::p_inf()).is_err());
    // division by zero itself is a signed infinity
    assert_eq!(Num::from_z(1).div_num(Num::zero()).unwrap(), Num::p_inf());
    assert_eq!(Num::from_z(-1).div_num(Num::zero()).unwrap(), Num::m_inf());
}

#[test]
fn complex_arithmetic_is_componentwise() {
    let a = Num::decode("1I2");
    let b = Num::decode("3I4");
    assert_eq!(a.add_num(b).unwrap(), Num::decode("4I6"));
    assert_eq!(a.mul_num(b).unwrap(), Num::decode("-5I10"));
    // the modulus drives the integer conversion
    assert_eq!(Num::decode("3I4").to_z(), Num::from_z(5));
    assert_eq!(Num::decode("1I1").to_r(), Num::decode("1.4142135623731"));
}

#[test]
fn hex_integers_read_unsigned() {
    assert_eq!(Num::decode("H000000000000002a"), Num::from_z(42));
    assert_eq!(Num::decode("Hffffffffffffffff"), Num::from_z(-1));
    assert_eq!(Num::decode("H7fffffffffffffff"), Num::from_z(i64::MAX));
}

#[test]
fn display_modes() {
    let x = Num::decode("0.1");
    assert_eq!(x.disp(NumDisplay::Std), "0.1");
    assert_eq!(x.disp(NumDisplay::Raw), ".1E0");
    assert_eq!(x.disp(NumDisplay::Fix(0)), "0");
    assert_eq!(x.disp(NumDisplay::Fix(4)), "0.1000");
    assert_eq!(x.disp(NumDisplay::Sci(6)), "1.000000e-1");
    assert_eq!(x.disp(NumDisplay::HexL), "0.1");

    let y = Num::decode("-2.1");
    assert_eq!(y.disp(NumDisplay::Std), "-2.1");
    assert_eq!(y.disp(NumDisplay::Raw), "-.21E1");
    assert_eq!(y.disp(NumDisplay::Fix(0)), "-2");
    assert_eq!(y.disp(NumDisplay::Fix(4)), "-2.1000");
    assert_eq!(y.disp(NumDisplay::Sci(6)), "-2.100000e0");

    let z = Num::from_z(42);
    assert_eq!(z.disp(NumDisplay::Std), "42");
    assert_eq!(z.disp(NumDisplay::HexL), "2a");
    assert_eq!(z.disp(NumDisplay::HexU), "2A");
    assert_eq!(Num::from_z(-1).disp(NumDisplay::HexL), "ffffffffffffffff");

    let w = Num::decode("8e200");
    assert_eq!(w.disp(NumDisplay::Std), "8e200");
    assert_eq!(w.disp(NumDisplay::Raw), ".8E201");
    assert_eq!(w.disp(NumDisplay::Fix(0)), "8e200");
    assert_eq!(w.disp(NumDisplay::Fix(4)), "8.0000e200");
    assert_eq!(w.disp(NumDisplay::Sci(6)), "8.000000e200");
}

#[test]
fn std_window_is_adaptive() {
    // zero fractional part with a small exponent shows the bare integer
    assert_eq!(Num::decode("1.2e5").disp(NumDisplay::Std), "120000");
    // the same mantissa far out shows scientific form
    assert_eq!(Num::decode("1.2e20").disp(NumDisplay::Std), "1.2e20");
    assert_eq!(Num::decode("0.45").disp(NumDisplay::Std), "0.45");
    assert_eq!(Num::decode("0.123456781234").disp(NumDisplay::Std), "0.123456781234");
    // an exact decimal tie rounds to even
    assert_eq!(Num::decode("0.1234567812365").disp(NumDisplay::Std), "0.123456781236");
    assert_eq!(Num::decode("-9999999999999.4").disp(NumDisplay::Std), "-9999999999999.4");
    assert_eq!(Num::decode("-1.2345678901e-200").disp(NumDisplay::Std), "-1.23456789e-200");
    assert_eq!(Num::decode("-1.2345678916e-200").disp(NumDisplay::Std), "-1.234567892e-200");
}

#[test]
fn infinities_display_everywhere() {
    for d in [
        NumDisplay::Std,
        NumDisplay::Raw,
        NumDisplay::Fix(4),
        NumDisplay::Sci(4),
        NumDisplay::HexU,
        NumDisplay::HexL,
    ] {
        assert_eq!(Num::p_inf().disp(d), "+oo");
        assert_eq!(Num::m_inf().disp(d), "-oo");
    }
}

#[test]
fn unary_operations() {
    assert_eq!(Num::decode("-3.5").chs().unwrap(), Num::decode("3.5"));
    assert_eq!(Num::decode("-3.5").abs().unwrap(), Num::decode("3.5"));
    assert_eq!(Num::decode("-3.5").int_part().unwrap(), Num::from_z(-3));
    assert_eq!(Num::decode("-3.5").frac().unwrap(), Num::decode("-0.5"));
    assert_eq!(Num::decode("-3.5").round().unwrap(), Num::from_z(-4));
    assert_eq!(Num::decode("5/2").recip().unwrap(), Num::decode("2/5"));
    assert_eq!(Num::decode("0.5").recip().unwrap(), Num::from_z(2));
    assert_eq!(Num::decode("5/2").frac().unwrap(), Num::decode("1/2"));
    assert_eq!(Num::decode("5/2").int_part().unwrap(), Num::from_z(2));
    assert_eq!(Num::decode("5/2").round().unwrap(), Num::from_z(3));
    // reciprocal of an integer is the integer itself
    assert_eq!(Num::from_z(4).recip().unwrap(), Num::from_z(4));
}

#[test]
fn conversions_between_domains() {
    // the quotient conversion is owed on exactly representable reals
    let r = Num::decode("8.25").repr().to_q().unwrap();
    assert_eq!(r.to_str(), "33/4");
    assert_eq!(Num::decode("1/2").to_r(), Num::decode("0.5"));
    assert_eq!(Num::decode("-1/4").to_r(), Num::decode("-0.25"));
    assert_eq!(Num::decode("8.25").to_q().unwrap(), Num::decode("33/4"));
    // a real whose exact fraction runs past the wrapped range is an error
    assert!(Num::decode("1.2345678901234").to_q().is_err());
    assert_eq!(Num::decode("-1.5").to_q().unwrap(), Num::decode("-3/2"));
    assert_eq!(Num::decode("42.499").to_z(), Num::from_z(42));
    assert_eq!(Num::decode("42.5").to_z(), Num::from_z(43));
    assert_eq!(Num::decode("+oo").to_z(), Num::from_z(i64::MAX));
}
