//! The ways evaluation can fail.

use vstd::prelude::*;

use crate::syntax::{BuiltinOp, Expr, Term};

verus! {

/// Why an evaluation failed. Each variant carries what a caller needs to
/// report the cause.
#[derive(Debug, PartialEq)]
pub enum EvalError {
    /// A symbol that no frame binds.
    UndefinedSymbol(String),
    /// A value of the wrong kind: a non-numeric argument of an arithmetic
    /// operator, or a procedure parameter that is not a symbol.
    TypeError(Expr),
    /// The operator position evaluated to something that is not a procedure.
    NotApplicable(Expr),
    /// `-` or `/` applied to no arguments.
    MissingArgument(BuiltinOp),
    /// A procedure applied to the wrong number of arguments: the number of
    /// its parameters, then the number of arguments.
    ArityMismatch(usize, usize),
    /// A division whose divisor is zero.
    DivisionByZero,
    /// `(/ n)` for an `n` whose reciprocal is not the integer one.
    NoIntegerReciprocal(i32),
    /// An arithmetic result outside the range of `i32`.
    Overflow(BuiltinOp),
    /// Evaluation nested deeper than the evaluator allows.
    DepthExceeded,
}

/// The model of an `EvalError`.
pub enum Fault {
    UndefinedSymbol(Seq<char>),
    TypeError(Term),
    NotApplicable(Term),
    MissingArgument(BuiltinOp),
    ArityMismatch(nat, nat),
    DivisionByZero,
    NoIntegerReciprocal(i32),
    Overflow(BuiltinOp),
    DepthExceeded,
}

impl View for EvalError {
    type V = Fault;

    open spec fn view(&self) -> Fault {
        match self {
            EvalError::UndefinedSymbol(name) => Fault::UndefinedSymbol(name@),
            EvalError::TypeError(e) => Fault::TypeError(e@),
            EvalError::NotApplicable(e) => Fault::NotApplicable(e@),
            EvalError::MissingArgument(op) => Fault::MissingArgument(*op),
            EvalError::ArityMismatch(p, a) => Fault::ArityMismatch(*p as nat, *a as nat),
            EvalError::DivisionByZero => Fault::DivisionByZero,
            EvalError::NoIntegerReciprocal(n) => Fault::NoIntegerReciprocal(*n),
            EvalError::Overflow(op) => Fault::Overflow(*op),
            EvalError::DepthExceeded => Fault::DepthExceeded,
        }
    }
}

/// The model of an outcome whose success value needs no model.
pub open spec fn outcome_of<T>(r: Result<T, EvalError>) -> Result<T, Fault> {
    match r {
        Ok(v) => Ok(v),
        Err(e) => Err(e@),
    }
}

/// The model of an evaluation outcome.
pub open spec fn result_of(r: Result<Expr, EvalError>) -> Result<Term, Fault> {
    match r {
        Ok(v) => Ok(v@),
        Err(e) => Err(e@),
    }
}

} // verus!
