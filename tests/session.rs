use lamb::eval::{Environment, EvalError};
use lamb::parser::{Atom, Expr, ParseError};
use lamb::session::{parse_and_eval, InputError};

fn num(n: i32) -> Expr {
    Expr::SelfEvaluation(Atom::Num(n))
}

#[test]
fn session_keeps_definitions() {
    let mut env = Environment::new();
    assert_eq!(parse_and_eval("(define x 4)", &mut env), Ok(num(4)));
    assert_eq!(parse_and_eval("(* x x)", &mut env), Ok(num(16)));
}

#[test]
fn same_line_same_frames_same_outcome() {
    let mut first = Environment::new();
    let mut second = Environment::new();
    let line = "((lambda (a b) (/ (* a b) 2)) 6 7) trailing text";
    let one = parse_and_eval(line, &mut first);
    let two = parse_and_eval(line, &mut second);
    assert_eq!(one, Ok(num(21)));
    assert_eq!(one, two);
    assert_eq!(parse_and_eval(line, &mut first), one);
}

#[test]
fn session_reports_parse_errors() {
    let mut env = Environment::new();
    assert_eq!(
        parse_and_eval("(+ 1 ]", &mut env),
        Err(InputError::Parse(ParseError { remaining: "]" }))
    );
}

#[test]
fn session_reports_eval_errors() {
    let mut env = Environment::new();
    assert_eq!(
        parse_and_eval("(/ 8 0)", &mut env),
        Err(InputError::Eval(EvalError::DivisionByZero))
    );
    assert_eq!(
        parse_and_eval("y", &mut env),
        Err(InputError::Eval(EvalError::UndefinedSymbol("y".to_string())))
    );
}
