use lamb::eval::{eval, Environment, EvalError};
use lamb::parser::{parse_expr, Atom, BuiltinOp, Expr};

fn num(n: i32) -> Expr {
    Expr::SelfEvaluation(Atom::Num(n))
}

fn op(o: BuiltinOp) -> Expr {
    Expr::SelfEvaluation(Atom::Operater(o))
}

fn sym(name: &str) -> Expr {
    Expr::Symbol(name.to_string())
}

fn apply(f: Expr, args: Vec<Expr>) -> Expr {
    Expr::Procedure(Box::new(f), args)
}

fn run(text: &str, env: &mut Environment) -> Result<Expr, EvalError> {
    let (_, expr) = parse_expr(text).unwrap();
    eval(expr, env)
}

#[test]
fn test_environment() {
    let mut env = Environment::new();
    let value = Expr::SelfEvaluation(Atom::Num(42));
    env.add("x".to_string(), value.clone());

    assert_eq!(env.lookup("x"), Some(value));
    assert_eq!(env.lookup("y"), None);
}

#[test]
fn test_eval_builtin_add_mul() {
    let mut env = Environment::new();
    env.add(
        "+".to_string(),
        Expr::SelfEvaluation(Atom::Operater(BuiltinOp::Plus)),
    );
    env.add(
        "*".to_string(),
        Expr::SelfEvaluation(Atom::Operater(BuiltinOp::Times)),
    );

    // (+ 1 2)
    let expr = Expr::Procedure(
        Box::new(Expr::Symbol("+".into())),
        vec![
            Expr::SelfEvaluation(Atom::Num(1)),
            Expr::SelfEvaluation(Atom::Num(2)),
        ],
    );
    let res = eval(expr, &mut env).unwrap();
    assert_eq!(res, Expr::SelfEvaluation(Atom::Num(3)));

    // (+ (* 2 3) 4) => 10
    let nested = Expr::Procedure(
        Box::new(Expr::Symbol("+".into())),
        vec![
            Expr::Procedure(
                Box::new(Expr::Symbol("*".into())),
                vec![
                    Expr::SelfEvaluation(Atom::Num(2)),
                    Expr::SelfEvaluation(Atom::Num(3)),
                ],
            ),
            Expr::SelfEvaluation(Atom::Num(4)),
        ],
    );
    let res2 = eval(nested, &mut env).unwrap();
    assert_eq!(res2, Expr::SelfEvaluation(Atom::Num(10)));
}

#[test]
fn test_eval_builtin_minus_divide() {
    let mut env = Environment::new();
    env.add(
        "-".to_string(),
        Expr::SelfEvaluation(Atom::Operater(BuiltinOp::Minus)),
    );
    env.add(
        "/".to_string(),
        Expr::SelfEvaluation(Atom::Operater(BuiltinOp::Divide)),
    );

    // (- 5 1 1) => 3
    let sub = Expr::Procedure(
        Box::new(Expr::Symbol("-".into())),
        vec![
            Expr::SelfEvaluation(Atom::Num(5)),
            Expr::SelfEvaluation(Atom::Num(1)),
            Expr::SelfEvaluation(Atom::Num(1)),
        ],
    );
    let res = eval(sub, &mut env).unwrap();
    assert_eq!(res, Expr::SelfEvaluation(Atom::Num(3)));

    // Unary minus: (- 5) => -5
    let unary = Expr::Procedure(
        Box::new(Expr::Symbol("-".into())),
        vec![Expr::SelfEvaluation(Atom::Num(5))],
    );
    let res2 = eval(unary, &mut env).unwrap();
    assert_eq!(res2, Expr::SelfEvaluation(Atom::Num(-5)));

    // (/ 8 2) => 4
    let div = Expr::Procedure(
        Box::new(Expr::Symbol("/".into())),
        vec![
            Expr::SelfEvaluation(Atom::Num(8)),
            Expr::SelfEvaluation(Atom::Num(2)),
        ],
    );
    let res3 = eval(div, &mut env).unwrap();
    assert_eq!(res3, Expr::SelfEvaluation(Atom::Num(4)));
}

#[test]
fn parse_then_eval_sum() {
    let mut env = Environment::new();
    let (rest, expr) = parse_expr("(+ 1 2)").unwrap();
    assert_eq!(rest, "");
    assert_eq!(expr, apply(op(BuiltinOp::Plus), vec![num(1), num(2)]));
    assert_eq!(eval(expr, &mut env), Ok(num(3)));
}

#[test]
fn parse_then_eval_nested() {
    let mut env = Environment::new();
    assert_eq!(run("(+ (* 2 3) 4)", &mut env), Ok(num(10)));
}

#[test]
fn define_then_lookup() {
    let mut env = Environment::new();
    let define = Expr::Define("x".to_string(), Box::new(num(42)));
    assert_eq!(eval(define, &mut env), Ok(num(42)));
    assert_eq!(env.lookup("x"), Some(num(42)));
    assert_eq!(eval(sym("x"), &mut env), Ok(num(42)));
}

#[test]
fn minus_negates_and_subtracts() {
    let mut env = Environment::new();
    assert_eq!(eval(apply(op(BuiltinOp::Minus), vec![num(5)]), &mut env), Ok(num(-5)));
    let three = apply(op(BuiltinOp::Minus), vec![num(5), num(1), num(1)]);
    assert_eq!(eval(three, &mut env), Ok(num(3)));
}

#[test]
fn divide_by_zero_fails() {
    let mut env = Environment::new();
    let div = apply(op(BuiltinOp::Divide), vec![num(8), num(0)]);
    assert_eq!(eval(div, &mut env), Err(EvalError::DivisionByZero));
}

#[test]
fn literal_evaluates_to_itself_twice() {
    let mut env = Environment::new();
    let first = eval(num(7), &mut env).unwrap();
    assert_eq!(first, num(7));
    let second = eval(first.clone(), &mut env).unwrap();
    assert_eq!(second, first);
    let lambda = Expr::Lambda(vec![sym("x")], Box::new(sym("x")));
    let value = eval(lambda.clone(), &mut env).unwrap();
    assert_eq!(value, lambda);
    assert_eq!(eval(value.clone(), &mut env).unwrap(), value);
}

#[test]
fn parse_and_eval_is_deterministic() {
    let mut env1 = Environment::new();
    let mut env2 = Environment::new();
    let text = "(define y (* (+ 1 2) (- 10 4)))";
    assert_eq!(run(text, &mut env1), Ok(num(18)));
    assert_eq!(run(text, &mut env2), Ok(num(18)));
    assert_eq!(env1.lookup("y"), env2.lookup("y"));
}

#[test]
fn empty_sum_and_product() {
    let mut env = Environment::new();
    assert_eq!(run("(+)", &mut env), Ok(num(0)));
    assert_eq!(run("(*)", &mut env), Ok(num(1)));
    assert_eq!(run("(* 7)", &mut env), Ok(num(7)));
    assert_eq!(run("(* 2 3 4)", &mut env), Ok(num(24)));
}

#[test]
fn missing_arguments() {
    let mut env = Environment::new();
    assert_eq!(run("(-)", &mut env), Err(EvalError::MissingArgument(BuiltinOp::Minus)));
    assert_eq!(run("(/)", &mut env), Err(EvalError::MissingArgument(BuiltinOp::Divide)));
}

#[test]
fn unary_divide() {
    let mut env = Environment::new();
    assert_eq!(run("(/ 1)", &mut env), Ok(num(1)));
    assert_eq!(run("(/ 0)", &mut env), Err(EvalError::DivisionByZero));
    assert_eq!(run("(/ 4)", &mut env), Err(EvalError::NoIntegerReciprocal(4)));
}

#[test]
fn division_truncates_toward_zero() {
    let mut env = Environment::new();
    assert_eq!(run("(/ 7 2)", &mut env), Ok(num(3)));
    assert_eq!(run("(/ -7 2)", &mut env), Ok(num(-3)));
    assert_eq!(run("(/ 100 5 2)", &mut env), Ok(num(10)));
    assert_eq!(run("(/ 100 5 0)", &mut env), Err(EvalError::DivisionByZero));
}

#[test]
fn arithmetic_overflow_is_an_error() {
    let mut env = Environment::new();
    assert_eq!(run("(+ 2147483647 1)", &mut env), Err(EvalError::Overflow(BuiltinOp::Plus)));
    assert_eq!(run("(- -2147483648)", &mut env), Err(EvalError::Overflow(BuiltinOp::Minus)));
    assert_eq!(run("(* 65536 65536)", &mut env), Err(EvalError::Overflow(BuiltinOp::Times)));
    assert_eq!(run("(/ -2147483648 -1)", &mut env), Err(EvalError::Overflow(BuiltinOp::Divide)));
    assert_eq!(run("(- -2147483647 1)", &mut env), Ok(num(i32::MIN)));
}

#[test]
fn non_numeric_argument_is_a_type_error() {
    let mut env = Environment::new();
    assert_eq!(
        run("(+ 1 #t 2)", &mut env),
        Err(EvalError::TypeError(Expr::SelfEvaluation(Atom::Boolean(true))))
    );
}

#[test]
fn undefined_symbol() {
    let mut env = Environment::new();
    assert_eq!(run("nothing", &mut env), Err(EvalError::UndefinedSymbol("nothing".to_string())));
}

#[test]
fn number_is_not_applicable() {
    let mut env = Environment::new();
    assert_eq!(run("(1 2)", &mut env), Err(EvalError::NotApplicable(num(1))));
}

#[test]
fn lambda_application() {
    let mut env = Environment::new();
    assert_eq!(run("((lambda (x y) (- x y)) 10 4)", &mut env), Ok(num(6)));
    assert!(run("(define sq (lambda (n) (* n n)))", &mut env).is_ok());
    assert_eq!(run("(sq 9)", &mut env), Ok(num(81)));
    // Parameters do not outlive the application.
    assert_eq!(env.lookup("n"), None);
}

#[test]
fn lambda_arity_and_parameters() {
    let mut env = Environment::new();
    assert_eq!(run("((lambda (x) x) 1 2)", &mut env), Err(EvalError::ArityMismatch(1, 2)));
    assert_eq!(run("((lambda (x y) x) 1)", &mut env), Err(EvalError::ArityMismatch(2, 1)));
    assert_eq!(run("((lambda (1) 1) 1)", &mut env), Err(EvalError::TypeError(num(1))));
}

#[test]
fn define_inside_body_stays_local() {
    let mut env = Environment::new();
    assert_eq!(run("((lambda (x) (define z (+ x 1))) 5)", &mut env), Ok(num(6)));
    assert_eq!(env.lookup("z"), None);
}

#[test]
fn arguments_see_earlier_defines() {
    let mut env = Environment::new();
    assert_eq!(run("(+ (define a 2) a)", &mut env), Ok(num(4)));
    assert_eq!(env.lookup("a"), Some(num(2)));
}

#[test]
fn runaway_recursion_is_cut_off() {
    let mut env = Environment::new();
    assert_eq!(
        run("((lambda (f) (f f)) (lambda (f) (f f)))", &mut env),
        Err(EvalError::DepthExceeded)
    );
}

#[test]
fn inner_frame_shadows_outer() {
    let outer = {
        let mut env = Environment::default();
        env.add("v".to_string(), num(1));
        env
    };
    let mut inner = Environment::push_env(outer);
    assert_eq!(inner.lookup("v"), Some(num(1)));
    inner.add("v".to_string(), num(2));
    assert_eq!(inner.lookup("v"), Some(num(2)));
}

#[test]
fn any_zero_divisor_is_division_by_zero() {
    let mut env = Environment::new();
    assert_eq!(run("(/ -2147483648 -1 0)", &mut env), Err(EvalError::DivisionByZero));
    assert_eq!(run("(/ 0 5)", &mut env), Ok(num(0)));
}

#[test]
fn minus_subtracts_the_sum_of_the_rest() {
    let mut env = Environment::new();
    assert_eq!(run("(- -2147483648 1 -1)", &mut env), Ok(num(i32::MIN)));
    assert_eq!(run("(- 10 2147483647 1)", &mut env), Err(EvalError::Overflow(BuiltinOp::Minus)));
    assert_eq!(run("(- 0 -2147483648)", &mut env), Err(EvalError::Overflow(BuiltinOp::Minus)));
}

#[test]
fn bindings_list_every_frame() {
    let mut outer = Environment::new();
    outer.add("a".to_string(), num(1));
    outer.add("b".to_string(), num(2));
    outer.add("a".to_string(), num(3));
    let mut inner = Environment::push_env(outer);
    inner.add("c".to_string(), num(4));
    let frames = inner.bindings();
    assert_eq!(
        frames,
        vec![
            vec![("a".to_string(), num(3)), ("b".to_string(), num(2))],
            vec![("c".to_string(), num(4))],
        ]
    );
}

#[test]
fn evaluation_without_define_keeps_frames() {
    let mut env = Environment::new();
    env.add("x".to_string(), num(5));
    let before = env.bindings();
    assert_eq!(run("(+ x 1)", &mut env), Ok(num(6)));
    assert_eq!(run("((lambda (y) (define w y)) 2)", &mut env), Ok(num(2)));
    assert_eq!(run("(/ x 0)", &mut env), Err(EvalError::DivisionByZero));
    assert_eq!(env.bindings(), before);
}

#[test]
fn environments_that_agree_evaluate_alike() {
    let mut layered = Environment::new();
    layered.add("x".to_string(), num(1));
    layered.add("y".to_string(), num(9));
    let mut layered = Environment::push_env(layered);
    layered.add("y".to_string(), num(2));
    let mut flat = Environment::new();
    flat.add("y".to_string(), num(2));
    flat.add("x".to_string(), num(1));
    let text = "(define z (+ x y))";
    assert_eq!(run(text, &mut layered), run(text, &mut flat));
    for name in ["x", "y", "z", "w"] {
        assert_eq!(layered.lookup(name), flat.lookup(name));
    }
    assert_eq!(flat.lookup("z"), Some(num(3)));
}
