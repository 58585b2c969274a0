use clikit::error::EvaError;
use clikit::expression::{read_expression, Reading, Step};

fn num(t: &str) -> Step {
    Step::Number(t.to_string())
}

fn steps(input: &str) -> (Vec<Step>, Option<EvaError>) {
    match read_expression(input) {
        Reading::Blank => panic!("blank"),
        Reading::Steps(v, e) => (v, e),
    }
}

fn too_many() -> Option<EvaError> {
    Some(EvaError::Parser("Too many operators, too few operands".to_string()))
}

#[test]
fn blank_lines() {
    assert!(matches!(read_expression(""), Reading::Blank));
    assert!(matches!(read_expression("  \t "), Reading::Blank));
}

#[test]
fn precedence_and_order() {
    assert_eq!(
        steps("1 + 2*3"),
        (vec![num("1"), num("2"), num("3"), Step::Multiply, Step::Add], None)
    );
    assert_eq!(
        steps("8 - 2 - 1"),
        (vec![num("8"), num("2"), Step::Subtract, num("1"), Step::Subtract], None)
    );
    assert_eq!(
        steps("2^3^2"),
        (vec![num("2"), num("3"), num("2"), Step::Power, Step::Power], None)
    );
    assert_eq!(steps("-2"), (vec![num("2"), Step::Negate], None));
    assert_eq!(steps("+.5"), (vec![num(".5")], None));
    assert_eq!(steps("6/3"), (vec![num("6"), num("3"), Step::Divide], None));
}

#[test]
fn calls_and_constants() {
    assert_eq!(steps("sin(30)"), (vec![num("30"), Step::Call("sin".to_string())], None));
    assert_eq!(
        steps("log(8, 2)"),
        (vec![num("8"), num("2"), Step::Call("log".to_string())], None)
    );
    assert_eq!(
        steps("2pi"),
        (vec![num("2"), Step::Constant("pi".to_string()), Step::Multiply], None)
    );
    assert_eq!(steps("_"), (vec![Step::Constant("_".to_string())], None));
}

#[test]
fn parentheses_are_closed_first() {
    assert_eq!(steps("(1+2"), (vec![num("1"), num("2"), Step::Add], None));
    assert_eq!(
        steps("1)"),
        (vec![], Some(EvaError::Syntax("Mismatched parentheses!".to_string())))
    );
}

#[test]
fn faults_keep_the_steps_before_them() {
    assert_eq!(steps("3 +"), (vec![num("3")], too_many()));
    assert_eq!(
        steps("log(2)"),
        (
            vec![num("2")],
            Some(EvaError::Parser("To few arguments for function, need 2".to_string()))
        )
    );
    assert_eq!(
        steps("sqrt()"),
        (vec![], Some(EvaError::Parser("To few arguments for function, need 1".to_string())))
    );
    assert_eq!(steps("1/0 +"), (vec![num("1"), num("0"), Step::Divide], too_many()));
    assert_eq!(steps("x"), (vec![], too_many()));
}

#[test]
fn double_star_is_a_power() {
    assert_eq!(steps("2**3"), (vec![num("2"), num("3"), Step::Power], None));
    assert_eq!(steps("2 ** 3"), (vec![num("2"), num("3"), Step::Power], None));
    assert_eq!(
        steps("2**3^2"),
        (vec![num("2"), num("3"), num("2"), Step::Power, Step::Power], None)
    );
    assert_eq!(
        steps("4*2**3"),
        (vec![num("4"), num("2"), num("3"), Step::Power, Step::Multiply], None)
    );
    assert_eq!(steps("2^**3"), (vec![num("2")], too_many()));
}

#[test]
fn functions_need_parentheses() {
    let expected = || Some(EvaError::Syntax("Function 'sin' expected parentheses".to_string()));
    assert_eq!(steps("sin 30"), (vec![], expected()));
    assert_eq!(steps("sin"), (vec![], expected()));
    assert_eq!(
        EvaError::syntax("Function 'sin' expected parentheses").message(),
        "Syntax Error: Function 'sin' expected parentheses"
    );
    assert_eq!(steps("foo 3"), (vec![], too_many()));
}
