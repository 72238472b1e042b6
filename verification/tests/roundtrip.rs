use fixdec::Decimal;

// Re-parsing the canonical text gives back an equal value, for every value
// whose canonical text stays within the 36-digit precision cap (a value like
// 1e39 formats to 40 integral digits, and 1e-39 to a 39-digit fraction after
// a leading zero, which no longer parse).
fn roundtrip(s: &str) {
    let d = s.parse::<Decimal>().unwrap();
    let text = d.to_string();
    let d2 = text.parse::<Decimal>().unwrap();
    assert!(d2 == d, "{} reparsed as {} differs", s, text);
}

#[test]
fn reparse_formatted_output() {
    for s in [
        "0",
        "-0",
        "1.1",
        "-128.128",
        "-00000000001e-00000000001",
        "0000001.23456000e3",
        "-0000001.23456000E-3",
        "123456789.987654321",
        "99999999999999999999999999999999999.9",
        "9.99999999999999999999999999999999999",
        "4703178999618078116505370421100e-36",
        "0.000000001",
        "1e-1",
        "18446744073709551616",
    ] {
        roundtrip(s);
    }
}

#[test]
fn canonical_scenarios() {
    let d = "-00000000001e-00000000001".parse::<Decimal>().unwrap();
    assert_eq!(d.to_string(), "-0.1");
    let d = "0000001.23456000e3".parse::<Decimal>().unwrap();
    assert_eq!(d.to_string(), "1234.56");
    assert!("1.0e-100".parse::<Decimal>().unwrap() > "1.0e-101".parse::<Decimal>().unwrap());
    assert!(
        "123456789.987654321".parse::<Decimal>().unwrap()
            < "987654321.123456789".parse::<Decimal>().unwrap()
    );
}

#[test]
fn digit_groups_exposed() {
    let d = "1000000001.5".parse::<Decimal>().unwrap();
    assert_eq!(d.digits(), &[1, 1, 500000000]);
    // all-zero groups are trimmed at both edges of the stored sequence
    let d = "0.5".parse::<Decimal>().unwrap();
    assert_eq!(d.digits(), &[500000000]);
    let d = "1000000000".parse::<Decimal>().unwrap();
    assert_eq!(d.digits(), &[1]);
    // so the same number always has the same stored layout
    let a = "0.5".parse::<Decimal>().unwrap();
    let b = ".5".parse::<Decimal>().unwrap();
    assert_eq!(a.digits(), b.digits());
}
