use fixdec::Decimal;

fn dec(s: &str) -> Decimal {
    s.parse::<Decimal>().unwrap()
}

#[test]
fn test_cmp() {
    assert!(dec("0") == dec("0"));

    assert!(dec("-1") < dec("1"));
    assert!(dec("1") > dec("-1"));

    assert!(dec("1.1") == dec("1.1"));
    assert!(dec("1.2") > dec("1.1"));
    assert!(dec("-1.2") < dec("1.1"));
    assert!(dec("1.1") > dec("-1.2"));

    assert!(dec("1") < dec("1e39"));
    assert!(dec("1") > dec("1e-39"));
    assert!(dec("1.0e-100") >= dec("1.0e-101"));
    assert!(dec("1.0e-101") <= dec("1.0e-100"));
    assert!(dec("1.0e-100") != dec("1.0e-101"));

    assert!(dec("1.12") < dec("1.2"));
    assert!(dec("1.2") > dec("1.12"));
    assert!(dec("-1.2") < dec("-1.12"));
    assert!(dec("-1.12") > dec("-1.2"));
    assert!(dec("-1.12") < dec("1.2"));
    assert!(dec("1.12") > dec("-1.2"));

    assert!(dec("0.000000001") < dec("100000000"));
    assert!(dec("100000000") > dec("0.000000001"));

    assert!(dec("123456789.987654321") == dec("123456789.987654321"));
    assert!(dec("987654321.123456789") == dec("987654321.123456789"));
    assert!(dec("123456789.987654321") < dec("987654321.123456789"));
    assert!(dec("987654321.123456789") > dec("123456789.987654321"));

    assert!(dec("99999999999999999999999999999999999.9") > dec("9.99999999999999999999999999999999999"));
    assert!(dec("9.99999999999999999999999999999999999") > dec("0"));
    assert!(dec("9.99999999999999999999999999999999999") > dec("1"));
    assert!(dec("-99999999999999999999999999999999999.9") < dec("-9.99999999999999999999999999999999999"));
    assert!(dec("-9.99999999999999999999999999999999999") < dec("0"));
    assert!(dec("-9.99999999999999999999999999999999999") < dec("1"));
    assert!(dec("4703178999618078116505370421100e36") > dec("0"));
    assert!(dec("4703178999618078116505370421100e-36") > dec("0"));
    assert!(dec("-4703178999618078116505370421100e36") < dec("0"));
    assert!(dec("-4703178999618078116505370421100e-36") < dec("0"));
    assert!(dec("0") < dec("4703178999618078116505370421100e36"));
    assert!(dec("0") < dec("4703178999618078116505370421100e-36"));
    assert!(dec("0") > dec("-4703178999618078116505370421100e36"));
    assert!(dec("0") > dec("-4703178999618078116505370421100e-36"));
}

#[test]
fn equal_values_with_different_text() {
    // equality follows the denoted number, not the written form
    assert!(dec("1.0") == dec("1.00"));
    assert!(dec("1.0") == dec("1e0"));
    assert!(dec("1.00") == dec("1"));
    assert!(dec("0.5") == dec(".5"));
    assert!(dec("0.5") == dec("5e-1"));
    assert!(dec("10") == dec("1e1"));
    assert!(dec("0") == dec("-0"));
}

#[test]
fn nan_ordering() {
    // NaN equals NaN and is greater than every non-NaN value
    assert!(dec("NaN") == dec("nan"));
    assert!(dec("NaN") > dec("0"));
    assert!(dec("NaN") > dec("99999999999999999999999999999999999.9"));
    assert!(dec("-1") < dec("NaN"));
    assert!(dec("NaN") != dec("0"));
}
