use raytr::cmd::{check_positive, is_positive_integer_arg};

#[test]
fn positive_integers_are_accepted() {
    assert!(is_positive_integer_arg("300".to_string()).is_ok());
    assert!(is_positive_integer_arg("1".to_string()).is_ok());
}

#[test]
fn other_values_are_refused() {
    for bad in ["0", "-3", "abc", "", "2.5", "99999999999"] {
        assert_eq!(
            is_positive_integer_arg(bad.to_string()),
            Err("Positive interger expected".to_string())
        );
    }
}

#[test]
fn check_positive_decides_on_the_parsed_value() {
    assert_eq!(check_positive(Some(1)), Ok(()));
    assert_eq!(check_positive(Some(i32::MAX)), Ok(()));
    assert_eq!(check_positive(Some(0)), Err("Positive interger expected".to_string()));
    assert_eq!(check_positive(Some(-7)), Err("Positive interger expected".to_string()));
    assert_eq!(check_positive(None), Err("Positive interger expected".to_string()));
}

#[test]
fn signs_and_leading_zeros_follow_the_decimal_grammar() {
    assert!(is_positive_integer_arg("+5".to_string()).is_ok());
    assert!(is_positive_integer_arg("007".to_string()).is_ok());
    assert!(is_positive_integer_arg("2147483647".to_string()).is_ok());
    assert!(is_positive_integer_arg("2147483648".to_string()).is_err());
    assert!(is_positive_integer_arg("-0".to_string()).is_err());
    assert!(is_positive_integer_arg("+".to_string()).is_err());
    assert!(is_positive_integer_arg(" 5".to_string()).is_err());
}
