use rusty_jq::parser::parse_number;

#[test]
fn number_text_round_trips() {
    for t in ["0", "-12", "3.25", "-0.5", "1000000000000000000000", "007.010"] {
        assert_eq!(parse_number(t).expect("a number").to_text(), t);
    }
}

#[test]
fn malformed_numbers_are_refused() {
    for t in ["", "-", "1.", ".5", "1e5", "1.2.3", "+1", " 1", "abc"] {
        assert!(parse_number(t).is_none(), "{}", t);
    }
}

#[test]
fn decimals_compare_by_value() {
    let d = |t: &str| parse_number(t).unwrap();
    assert_eq!(d("1.5").compare(&d("1.50")), 0);
    assert_eq!(d("-0").compare(&d("0.0")), 0);
    assert_eq!(d("0.1").compare(&d("0.09")), 1);
    assert_eq!(d("-1").compare(&d("0.5")), -1);
    assert_eq!(d("-1.5").compare(&d("-1.25")), -1);
    assert_eq!(d("010").compare(&d("9.999")), 1);
    assert_eq!(d("2").compare(&d("10")), -1);
}
