use lamb::parser::{
    parse_bool, parse_define, parse_expr, parse_lambda, parse_number, parse_operater,
    parse_procedure, parse_selfeval, parse_symbol, Atom, BuiltinOp, Expr, ParseError,
};

fn num(n: i32) -> Expr {
    Expr::SelfEvaluation(Atom::Num(n))
}

fn op(o: BuiltinOp) -> Expr {
    Expr::SelfEvaluation(Atom::Operater(o))
}

fn sym(name: &str) -> Expr {
    Expr::Symbol(name.to_string())
}

#[test]
fn test_parse_number() {
    assert_eq!(parse_number("123"), Ok(("", Atom::Num(123))));
    assert_eq!(parse_number("-123"), Ok(("", Atom::Num(-123))));
    assert_eq!(parse_number("+123"), Ok(("", Atom::Num(123))));
}

#[test]
fn test_parse_bool() {
    assert_eq!(parse_bool("#t"), Ok(("", Atom::Boolean(true))));
    assert_eq!(parse_bool("#f"), Ok(("", Atom::Boolean(false))));
}

#[test]
fn test_parse_operater() {
    assert_eq!(
        parse_operater("+"),
        Ok(("", Atom::Operater(BuiltinOp::Plus)))
    );
    assert_eq!(
        parse_operater("-"),
        Ok(("", Atom::Operater(BuiltinOp::Minus)))
    );
    assert_eq!(
        parse_operater("*"),
        Ok(("", Atom::Operater(BuiltinOp::Times)))
    );
    assert_eq!(
        parse_operater("/"),
        Ok(("", Atom::Operater(BuiltinOp::Divide)))
    );
}

#[test]
fn test_parse_define() {
    assert_eq!(
        parse_define("(define x 10)"),
        Ok((
            "",
            Expr::Define(
                "x".to_string(),
                Box::new(Expr::SelfEvaluation(Atom::Num(10)))
            )
        ))
    );
}

#[test]
fn test_parse_pair() {
    assert_eq!(
        parse_procedure("(+ 1 2)"),
        Ok((
            "",
            Expr::Procedure(
                Box::new(Expr::SelfEvaluation(Atom::Operater(BuiltinOp::Plus))),
                vec![
                    Expr::SelfEvaluation(Atom::Num(1)),
                    Expr::SelfEvaluation(Atom::Num(2))
                ]
            )
        ))
    );
}

#[test]
fn test_parse_expr() {
    assert_eq!(
        parse_expr("(+(* 1 2)(- 3 4))"),
        Ok((
            "",
            Expr::Procedure(
                Box::new(Expr::SelfEvaluation(Atom::Operater(BuiltinOp::Plus))),
                vec![
                    Expr::Procedure(
                        Box::new(Expr::SelfEvaluation(Atom::Operater(BuiltinOp::Times))),
                        vec![
                            Expr::SelfEvaluation(Atom::Num(1)),
                            Expr::SelfEvaluation(Atom::Num(2))
                        ]
                    ),
                    Expr::Procedure(
                        Box::new(Expr::SelfEvaluation(Atom::Operater(BuiltinOp::Minus))),
                        vec![
                            Expr::SelfEvaluation(Atom::Num(3)),
                            Expr::SelfEvaluation(Atom::Num(4))
                        ]
                    )
                ]
            )
        ))
    );
}

#[test]
fn test_parse_define_expr() {
    assert_eq!(
        parse_expr("(define x 10)"),
        Ok((
            "",
            Expr::Define(
                "x".to_string(),
                Box::new(Expr::SelfEvaluation(Atom::Num(10)))
            )
        ))
    );

    assert_eq!(
        parse_expr("(define y (+ 1 2))"),
        Ok((
            "",
            Expr::Define(
                "y".to_string(),
                Box::new(Expr::Procedure(
                    Box::new(Expr::SelfEvaluation(Atom::Operater(BuiltinOp::Plus))),
                    vec![
                        Expr::SelfEvaluation(Atom::Num(1)),
                        Expr::SelfEvaluation(Atom::Num(2))
                    ]
                ))
            )
        ))
    );
}

#[test]
fn number_consumes_all_digits() {
    assert_eq!(parse_expr("0"), Ok(("", num(0))));
    assert_eq!(parse_expr("-0042"), Ok(("", num(-42))));
    assert_eq!(parse_expr("2147483647"), Ok(("", num(i32::MAX))));
    assert_eq!(parse_expr("-2147483648"), Ok(("", num(i32::MIN))));
    assert_eq!(parse_number("12abc"), Ok(("abc", Atom::Num(12))));
}

#[test]
fn number_out_of_range_is_an_error() {
    assert_eq!(parse_expr("2147483648"), Err(ParseError { remaining: "2147483648" }));
    assert_eq!(parse_number("-2147483649 x"), Err(ParseError { remaining: "-2147483649 x" }));
}

#[test]
fn booleans() {
    assert_eq!(parse_expr("#t"), Ok(("", Expr::SelfEvaluation(Atom::Boolean(true)))));
    assert_eq!(parse_expr("#f"), Ok(("", Expr::SelfEvaluation(Atom::Boolean(false)))));
    assert_eq!(parse_bool("#x"), Err(ParseError { remaining: "#x" }));
}

#[test]
fn sign_alone_is_an_operator() {
    assert_eq!(parse_selfeval("- 1"), Ok((" 1", op(BuiltinOp::Minus))));
    assert_eq!(parse_selfeval("+5"), Ok(("", num(5))));
    assert_eq!(parse_operater("x"), Err(ParseError { remaining: "x" }));
}

#[test]
fn symbols() {
    assert_eq!(parse_symbol("foo_bar-2> rest"), Ok((" rest", sym("foo_bar-2>"))));
    assert_eq!(parse_symbol("define"), Err(ParseError { remaining: "define" }));
    assert_eq!(parse_symbol("if"), Err(ParseError { remaining: "if" }));
    assert_eq!(parse_symbol("iffy"), Ok(("", sym("iffy"))));
    assert_eq!(parse_symbol("1x"), Err(ParseError { remaining: "1x" }));
}

#[test]
fn whitespace_is_skipped() {
    let expected = Expr::Procedure(Box::new(sym("f")), vec![num(1), sym("x")]);
    assert_eq!(parse_expr("  ( f\t1\n x )  tail"), Ok(("  tail", expected)));
}

#[test]
fn lambda_form() {
    let expected = Expr::Lambda(vec![sym("x"), sym("y")], Box::new(
        Expr::Procedure(Box::new(op(BuiltinOp::Plus)), vec![sym("x"), sym("y")]),
    ));
    assert_eq!(parse_expr("(lambda (x y) (+ x y))"), Ok(("", expected.clone())));
    assert_eq!(parse_lambda("(lambda(x y)(+ x y))"), Ok(("", expected)));
    assert_eq!(
        parse_expr("(lambda () 1)"),
        Ok(("", Expr::Lambda(vec![], Box::new(num(1)))))
    );
}

#[test]
fn empty_application_is_an_error() {
    assert_eq!(parse_expr("()"), Err(ParseError { remaining: ")" }));
}

#[test]
fn unclosed_list_is_an_error() {
    assert_eq!(parse_expr("(+ 1 2"), Err(ParseError { remaining: "" }));
}

#[test]
fn define_needs_a_symbol() {
    assert_eq!(parse_expr("(define 1 2)"), Err(ParseError { remaining: "1 2)" }));
    assert_eq!(parse_expr("(define x 1 2)"), Err(ParseError { remaining: "2)" }));
}

#[test]
fn reserved_word_in_application_is_an_error() {
    assert_eq!(parse_procedure("(define x 1)"), Err(ParseError { remaining: "define x 1)" }));
    assert_eq!(parse_expr("(if 1 2)"), Err(ParseError { remaining: "if 1 2)" }));
}

#[test]
fn empty_input_is_an_error() {
    assert_eq!(parse_expr(""), Err(ParseError { remaining: "" }));
    assert_eq!(parse_expr("   "), Err(ParseError { remaining: "" }));
}
