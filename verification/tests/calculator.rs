use clikit::error::EvaError;
use clikit::eval::AngleUnit;
use clikit::is_valid_ident;
use clikit::parser::{balance_parentheses, insert_implicit_multiplication, is_function_name, preprocess};

#[test]
fn implicit_multiplication() {
    assert_eq!(insert_implicit_multiplication("2x"), "2*x");
    assert_eq!(insert_implicit_multiplication("2(3)"), "2*(3)");
    assert_eq!(insert_implicit_multiplication("(1)(2)"), "(1)*(2)");
    assert_eq!(insert_implicit_multiplication("x y"), "x*y");
    assert_eq!(insert_implicit_multiplication("sin(x)"), "sin(x)");
    assert_eq!(insert_implicit_multiplication("2 sin(x)"), "2*sin(x)");
    assert_eq!(insert_implicit_multiplication("2 ** 3"), "2**3");
    assert_eq!(insert_implicit_multiplication(".5x"), ".5*x");
}

#[test]
fn parentheses() {
    assert_eq!(balance_parentheses("(1+2").unwrap(), "(1+2)");
    assert_eq!(balance_parentheses("((1").unwrap(), "((1))");
    assert_eq!(
        balance_parentheses("1)").unwrap_err(),
        EvaError::Syntax("Mismatched parentheses!".to_string())
    );
}

#[test]
fn preprocessing() {
    assert_eq!(preprocess("2(3").unwrap(), "2*(3)");
    assert!(preprocess("())").is_err());
    assert_eq!(preprocess(")(").unwrap(), ")*(");
}

#[test]
fn names() {
    assert!(is_function_name("nroot"));
    assert!(is_function_name("log10"));
    assert!(!is_function_name("foo"));
    assert!(is_valid_ident("pi"));
    assert!(is_valid_ident("_"));
    assert!(is_valid_ident("sqrt"));
    assert!(!is_valid_ident("x"));
}

#[test]
fn angle_units() {
    assert_eq!(AngleUnit::from_str("radian"), AngleUnit::Radian);
    assert_eq!(AngleUnit::from_str("gradian"), AngleUnit::Gradian);
    assert_eq!(AngleUnit::from_str("degree"), AngleUnit::Degree);
    assert_eq!(AngleUnit::from_str("anything"), AngleUnit::Degree);
}

#[test]
fn errors() {
    assert_eq!(EvaError::parser("boom"), EvaError::Parser("boom".to_string()));
    assert_eq!(EvaError::syntax("bad"), EvaError::Syntax("bad".to_string()));
    assert_eq!(EvaError::Parser("x".to_string()).message(), "Parser Error: x");
    assert_eq!(EvaError::Domain.message(), "Domain Error: Out of bounds!");
    assert_eq!(EvaError::Math("m".to_string()).message(), "Math Error: m");
}

#[test]
fn implied_products_in_calls() {
    assert_eq!(preprocess("12sin(45(2))").unwrap(), "12*sin(45*(2))");
    assert_eq!(preprocess("sin(30").unwrap(), "sin(30)");
}

#[test]
fn balanced_input_stays_as_it_is() {
    let once = balance_parentheses("((1+2)*(3").unwrap();
    assert_eq!(once, "((1+2)*(3))");
    assert_eq!(balance_parentheses(&once).unwrap(), once);
}
