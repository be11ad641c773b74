//! The expression tree and its mathematical model.

use vstd::prelude::*;

verus! {

/// The builtin arithmetic operators.
#[derive(Debug, Clone, Copy, PartialEq, Eq, Structural)]
pub enum BuiltinOp {
    Plus,
    Minus,
    Times,
    Divide,
}

/// A leaf value of the language.
#[derive(Debug, Clone, Copy, PartialEq, Eq, Structural)]
pub enum Atom {
    Num(i32),
    Boolean(bool),
    Operater(BuiltinOp),
}

/// An expression tree.
#[derive(Debug, PartialEq)]
pub enum Expr {
    /// A literal or operator that evaluates to itself.
    SelfEvaluation(Atom),
    /// An application: the operator position and its arguments, in order.
    Procedure(Box<Expr>, Vec<Expr>),
    /// A procedure value: its parameters and its body.
    Lambda(Vec<Expr>, Box<Expr>),
    /// An identifier, resolved in the environment.
    Symbol(String),
    /// Binds a name to the value of an expression in the current frame.
    Define(String, Box<Expr>),
}

/// The mathematical model of an `Expr`: strings become character sequences
/// and vectors become sequences.
pub enum Term {
    SelfEvaluation(Atom),
    Procedure(Box<Term>, Seq<Term>),
    Lambda(Seq<Term>, Box<Term>),
    Symbol(Seq<char>),
    Define(Seq<char>, Box<Term>),
}

/// The model of an expression.
pub open spec fn term_of(e: Expr) -> Term
    decreases e,
{
    match e {
        Expr::SelfEvaluation(a) => Term::SelfEvaluation(a),
        Expr::Procedure(f, args) => Term::Procedure(Box::new(term_of(*f)), terms_of(args@)),
        Expr::Lambda(params, body) => Term::Lambda(terms_of(params@), Box::new(term_of(*body))),
        Expr::Symbol(name) => Term::Symbol(name@),
        Expr::Define(name, value) => Term::Define(name@, Box::new(term_of(*value))),
    }
}

/// The models of a sequence of expressions, element by element.
pub open spec fn terms_of(s: Seq<Expr>) -> Seq<Term>
    decreases s,
{
    if s.len() == 0 {
        Seq::empty()
    } else {
        terms_of(s.drop_last()).push(term_of(s.last()))
    }
}

impl View for Expr {
    type V = Term;

    open spec fn view(&self) -> Term {
        term_of(*self)
    }
}

/// The model of a sequence has one term per expression, in order.
pub proof fn lemma_terms_of(s: Seq<Expr>)
    ensures
        terms_of(s).len() == s.len(),
        forall|i: int| 0 <= i < s.len() ==> #[trigger] terms_of(s)[i] == term_of(s[i]),
    decreases s.len(),
{
    if s.len() > 0 {
        lemma_terms_of(s.drop_last());
    }
}

/// Copies a vector of expressions element by element.
fn clone_exprs(v: &Vec<Expr>) -> (r: Vec<Expr>)
    ensures
        terms_of(r@) == terms_of(v@),
    decreases v, 0nat,
{
    let mut r: Vec<Expr> = Vec::with_capacity(v.len());
    let mut i: usize = 0;
    while i < v.len()
        invariant
            i <= v.len(),
            r@.len() == i,
            forall|j: int| 0 <= j < i ==> #[trigger] term_of(r@[j]) == term_of(v@[j]),
        decreases v.len() - i,
    {
        proof {
            assert(decreases_to!(v => v@[i as int]));
        }
        let e = v[i].clone();
        r.push(e);
        i = i + 1;
    }
    proof {
        lemma_terms_of(r@);
        lemma_terms_of(v@);
        assert(terms_of(r@) =~= terms_of(v@));
    }
    r
}

impl Clone for Expr {
    fn clone(&self) -> (r: Expr)
        ensures
            r@ == self@,
        decreases self, 1nat,
    {
        match self {
            Expr::SelfEvaluation(a) => Expr::SelfEvaluation(*a),
            Expr::Procedure(f, args) => {
                let f2 = (**f).clone();
                Expr::Procedure(Box::new(f2), clone_exprs(args))
            },
            Expr::Lambda(params, body) => {
                let b2 = (**body).clone();
                Expr::Lambda(clone_exprs(params), Box::new(b2))
            },
            Expr::Symbol(name) => Expr::Symbol(name.clone()),
            Expr::Define(name, value) => {
                let v2 = (**value).clone();
                Expr::Define(name.clone(), Box::new(v2))
            },
        }
    }
}

} // verus!
