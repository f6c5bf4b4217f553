use cutr::parse_positive_int;

#[test]
fn test_parse_positive_int() {
    let res = parse_positive_int("3");
    assert!(res.is_ok());
    assert_eq!(res.unwrap(), 3);

    let res = parse_positive_int("foo");
    assert!(res.is_err());
    assert_eq!(res.unwrap_err().to_string(), "foo".to_string());

    let res = parse_positive_int("0");
    assert!(res.is_err());
    assert_eq!(res.unwrap_err().to_string(), "0".to_string());
}

#[test]
fn test_parse_positive_int_plus_sign() {
    let res = parse_positive_int("+3");
    assert!(res.is_ok());
    assert_eq!(res.unwrap(), 3);

    let res = parse_positive_int("+");
    assert!(res.is_err());
    assert_eq!(res.unwrap_err(), "+");

    let res = parse_positive_int("++3");
    assert!(res.is_err());
}

#[test]
fn test_parse_positive_int_rejects_oversized_number() {
    let res = parse_positive_int("99999999999999999999999999");
    assert!(res.is_err());
    assert_eq!(res.unwrap_err(), "99999999999999999999999999");
}

#[test]
fn test_parse_positive_int_leading_zeros() {
    let res = parse_positive_int("007");
    assert!(res.is_ok());
    assert_eq!(res.unwrap(), 7);
}
