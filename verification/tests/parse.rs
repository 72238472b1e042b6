use fixdec::Decimal;
use fixdec::DecimalParseError;

fn assert_parse_empty<S: AsRef<str>>(s: S) {
    let result = s.as_ref().parse::<Decimal>();
    assert_eq!(result.unwrap_err(), DecimalParseError::Empty);
}

fn assert_parse_invalid<S: AsRef<str>>(s: S) {
    let result = s.as_ref().parse::<Decimal>();
    assert_eq!(result.unwrap_err(), DecimalParseError::Invalid);
}

fn assert_parse_overflow<S: AsRef<str>>(s: S) {
    let result = s.as_ref().parse::<Decimal>();
    assert_eq!(result.unwrap_err(), DecimalParseError::Overflow);
}

fn assert_parse_underflow<S: AsRef<str>>(s: S) {
    let result = s.as_ref().parse::<Decimal>();
    assert_eq!(result.unwrap_err(), DecimalParseError::Underflow);
}

#[test]
fn parse_error() {
    assert_parse_empty("");
    assert_parse_empty("   ");
    assert_parse_invalid("-");
    assert_parse_invalid("   -   ");
    assert_parse_invalid("-.");
    assert_parse_invalid("- 1");
    assert_parse_invalid("-NaN");
    assert_parse_invalid("NaN.");
    assert_parse_invalid("NaN1");
    assert_parse_invalid("   NaN   .   ");
    assert_parse_invalid("   NaN   1   ");
    assert_parse_invalid(".");
    assert_parse_invalid("   .   ");
    assert_parse_invalid("e");
    assert_parse_invalid("   e   ");
    assert_parse_invalid("-e");
    assert_parse_invalid("-1e");
    assert_parse_invalid("1e1.1");
    assert_parse_invalid("-1 e1");
    assert_parse_invalid("   x   ");
    assert_parse_overflow("1e10000000000");
    assert_parse_overflow("1e2147483648");
    assert_parse_underflow("1e-2147483648");
}

fn assert_parse<S: AsRef<str>, V: AsRef<str>>(s: S, expected: V) {
    let decimal = s.as_ref().parse::<Decimal>().unwrap();
    assert_eq!(decimal.to_string(), expected.as_ref());
}

#[test]
fn parse_valid() {
    // NaN
    assert_parse("NaN", "NaN");
    assert_parse("Nan", "NaN");
    assert_parse("NAN", "NaN");
    assert_parse("NAn", "NaN");
    assert_parse("naN", "NaN");
    assert_parse("nan", "NaN");
    assert_parse("nAN", "NaN");
    assert_parse("nAn", "NaN");
    assert_parse("   NaN   ", "NaN");

    // Integer
    assert_parse("0", "0");
    assert_parse("-0", "0");
    assert_parse("   -0   ", "0");
    assert_parse("00000.", "0");
    assert_parse("-00000.", "0");
    assert_parse("128", "128");
    assert_parse("-128", "-128");
    assert_parse("65536", "65536");
    assert_parse("-65536", "-65536");
    assert_parse("4294967296", "4294967296");
    assert_parse("-4294967296", "-4294967296");
    assert_parse("18446744073709551616", "18446744073709551616");
    assert_parse("-18446744073709551616", "-18446744073709551616");
    assert_parse("000000000123", "123");
    assert_parse("-000000000123", "-123");

    // Floating-point number
    assert_parse("0.0", "0");
    assert_parse("-0.0", "0");
    assert_parse("   -0.0   ", "0");
    assert_parse(".0", "0");
    assert_parse(".00000", "0");
    assert_parse("-.0", "0");
    assert_parse("-.00000", "0");
    assert_parse("128.128", "128.128");
    assert_parse("-128.128", "-128.128");
    assert_parse("65536.65536", "65536.65536");
    assert_parse("-65536.65536", "-65536.65536");
    assert_parse("4294967296.4294967296", "4294967296.4294967296");
    assert_parse("-4294967296.4294967296", "-4294967296.4294967296");
    assert_parse("000000000123.000000000123", "123.000000000123");
    assert_parse("-000000000123.000000000123", "-123.000000000123");

    // Scientific notation
    assert_parse("0e0", "0");
    assert_parse("-0E-0", "0");
    assert_parse("0000000000E0000000000", "0");
    assert_parse("-0000000000E-0000000000", "0");
    assert_parse("00000000001e0000000000", "1");
    assert_parse("-00000000001e-0000000000", "-1");
    assert_parse("00000000001e00000000001", "10");
    assert_parse("-00000000001e-00000000001", "-0.1");
    assert_parse("1e10", "10000000000");
    assert_parse("-1e-10", "-0.0000000001");
    assert_parse("0000001.23456000e3", "1234.56");
    assert_parse("-0000001.23456000E-3", "-0.00123456");
}

#[test]
fn precision_boundary() {
    // exactly 36 significant digits parse
    assert_parse(
        "999999999999999999999999999999999999",
        "999999999999999999999999999999999999",
    );
    assert_parse(
        "9.99999999999999999999999999999999999",
        "9.99999999999999999999999999999999999",
    );
    // 37 significant digits overflow
    assert_parse_overflow("9999999999999999999999999999999999999");
    assert_parse_overflow("9.999999999999999999999999999999999999");
    assert_parse_overflow("9999999999999999999999999999999999999   ");
    // trailing garbage is a grammar violation, classified before precision
    assert_parse_invalid("9999999999999999999999999999999999999x");
    // trimmed zeros do not count toward the precision cap
    assert_parse(
        "000999999999999999999999999999999999999.000",
        "999999999999999999999999999999999999",
    );
}

#[test]
fn exponent_boundary() {
    // up to three significant exponent digits parse for a nonzero decimal
    assert_parse("1e999", format!("1{}", "0".repeat(999)).as_str());
    assert_parse("1e-1", "0.1");
    assert_parse("1e000000999", format!("1{}", "0".repeat(999)).as_str());
    // four or more significant exponent digits overflow or underflow
    assert_parse_overflow("1e1000");
    assert_parse_overflow("1E+1000");
    assert_parse_underflow("1e-1000");
    assert_parse_underflow("1E-123456789");
    // any exponent magnitude is accepted when the decimal portion is zero
    assert_parse("0e12345678901234567890", "0");
    assert_parse("0.000e-12345678901234567890", "0");
}

#[test]
fn zero_is_canonical() {
    for s in ["0", "-0", ".0", "0.0e5", "   0000.000   ", "0e99999999999"] {
        let d = s.parse::<Decimal>().unwrap();
        assert!(d.is_zero(), "{} should be zero", s);
        assert!(d.is_sign_positive());
        assert_eq!(d.to_string(), "0");
    }
    assert!(!"0.1".parse::<Decimal>().unwrap().is_zero());
    assert!(!"NaN".parse::<Decimal>().unwrap().is_zero());
    assert!("NaN".parse::<Decimal>().unwrap().is_nan());
}

#[test]
fn sign_predicates() {
    let pos = "5".parse::<Decimal>().unwrap();
    assert!(pos.is_sign_positive());
    assert!(!pos.is_sign_negative());
    assert!(!pos.is_nan());
    let plus = "+5".parse::<Decimal>().unwrap();
    assert!(plus.is_sign_positive());
    let neg = "-5".parse::<Decimal>().unwrap();
    assert!(neg.is_sign_negative());
    assert!(!neg.is_sign_positive());
    let nan = "nan".parse::<Decimal>().unwrap();
    assert!(nan.is_nan());
    assert!(!nan.is_zero());
}
