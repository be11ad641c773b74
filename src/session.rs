//! One step of an interactive session: parse a line, then evaluate it in the
//! session's environment.

use vstd::prelude::*;

use crate::env::Environment;
use crate::eval::{eval, eval_term, EvalError, EVAL_DEPTH};
use crate::error::Fault;
use crate::grammar::expr_at;
use crate::parser::{parse_expr, ParseError};
use crate::syntax::{Expr, Term};

verus! {

/// Why a line of input produced no value.
#[derive(Debug, PartialEq)]
pub enum InputError<'a> {
    /// The line does not start with an expression.
    Parse(ParseError<'a>),
    /// The expression failed to evaluate.
    Eval(EvalError),
}

/// Parses the expression at the start of `input` and evaluates it in `env`;
/// what follows the expression is ignored. The outcome and the frames
/// afterwards depend on nothing but the text and the frames before.
pub fn parse_and_eval<'a>(input: &'a str, env: &mut Environment) -> (r: Result<Expr, InputError<'a>>)
    requires
        old(env).wf(),
    ensures
        final(env).wf(),
        match expr_at(input@, 0) {
            Err(p) => {
                &&& final(env)@ == old(env)@
                &&& r matches Err(InputError::Parse(e)) && e.remaining@ == input@.subrange(
                    p,
                    input@.len() as int,
                )
            },
            Ok((_, t)) => match r {
                Ok(v) => eval_term(t, old(env)@, EVAL_DEPTH as nat) == (
                    Ok::<Term, Fault>(v@),
                    final(env)@,
                ),
                Err(InputError::Eval(e)) => eval_term(t, old(env)@, EVAL_DEPTH as nat) == (
                    Err::<Term, Fault>(e@),
                    final(env)@,
                ),
                Err(InputError::Parse(_)) => false,
            },
        },
{
    match parse_expr(input) {
        Err(e) => Err(InputError::Parse(e)),
        Ok((_, expr)) => match eval(expr, env) {
            Ok(v) => Ok(v),
            Err(e) => Err(InputError::Eval(e)),
        },
    }
}

} // verus!
