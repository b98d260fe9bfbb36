use outdated::version::Version;

#[test]
fn one_digit_version() {
    assert_eq!(Version::parse("1").unwrap(), Version::from_parts(vec![1]))
}

#[test]
fn two_digit_version() {
    assert_eq!(Version::parse("1.1").unwrap(), Version::from_parts(vec![1, 1]))
}

#[test]
fn three_digit_version() {
    assert_eq!(Version::parse("1.2.0").unwrap(), Version::from_parts(vec![1, 2, 0]))
}

#[test]
fn four_digit_version() {
    assert_eq!(Version::parse("1.0.2.1").unwrap(), Version::from_parts(vec![1, 0, 2, 1]))
}

#[test]
fn longer_version_compare() {
    assert!(Version::parse("1").unwrap() < Version::parse("1.0").unwrap());
}

#[test]
fn same_length_version_compare() {
    assert!(Version::parse("1.0").unwrap() < Version::parse("1.1").unwrap());
}

#[test]
fn version_equality() {
    assert!(Version::parse("1.0").unwrap() == Version::parse("1.0").unwrap());
}

#[test]
fn major_version_compare() {
    assert!(Version::parse("1.0").unwrap() < Version::parse("2.0").unwrap());
}

#[test]
fn parse_rejects_empty_string() {
    assert!(Version::parse("").is_err());
}

#[test]
fn parse_rejects_non_digit_segments() {
    assert!(Version::parse("a.b").is_err());
    assert!(Version::parse("1.x").is_err());
    assert!(Version::parse("latest").is_err());
    assert!(Version::parse("-1").is_err());
    assert!(Version::parse("1.0-rc1").is_err());
}

#[test]
fn parse_rejects_empty_segments() {
    assert!(Version::parse("1..2").is_err());
    assert!(Version::parse(".1").is_err());
    assert!(Version::parse("1.").is_err());
    assert!(Version::parse(".").is_err());
}

#[test]
fn parse_error_carries_input() {
    let err = Version::parse("not-a-version").unwrap_err();
    assert_eq!(err.0, "not-a-version");
}

#[test]
fn parse_rejects_oversized_segment() {
    assert!(Version::parse("18446744073709551616").is_err());
    assert!(Version::parse("18446744073709551615").is_ok());
}

#[test]
fn to_string_joins_parts_with_dots() {
    assert_eq!(Version::parse("1.2.0").unwrap().to_string(), "1.2.0");
    assert_eq!(Version::parse("10").unwrap().to_string(), "10");
    assert_eq!(Version::from_parts(vec![305, 0, 47]).to_string(), "305.0.47");
}

#[test]
fn parse_to_string_round_trip() {
    let v = Version::parse("12.0.345.6").unwrap();
    assert_eq!(Version::parse(&v.to_string()).unwrap(), v);
}

#[test]
fn leading_zeros_canonicalize() {
    let v = Version::parse("01.002").unwrap();
    assert_eq!(v, Version::from_parts(vec![1, 2]));
    assert_eq!(v.to_string(), "1.2");
}

#[test]
fn compare_is_transitive_on_samples() {
    let a = Version::parse("1").unwrap();
    let b = Version::parse("1.0").unwrap();
    let c = Version::parse("1.0.1").unwrap();
    assert!(a < b && b < c && a < c);
}
