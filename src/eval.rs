//! The evaluator: reduces an expression to a value under an environment.

use vstd::prelude::*;

use crate::arith::{apply_builtin, apply_builtin_op};
use crate::env::{define_in, lookup_in, Frame, Frames};
use crate::error::{result_of, Fault};
use crate::syntax::{lemma_terms_of, terms_of, Atom, Expr, Term};

pub use crate::env::Environment;
pub use crate::error::EvalError;

verus! {

/// How deeply evaluation may nest, counting each sub-expression and each
/// procedure body entered. Deeper evaluations fail with `DepthExceeded`.
pub const EVAL_DEPTH: usize = 512;

/// The numbers among `vals`, or a `TypeError` for the first value that is
/// not a number.
pub open spec fn numbers_of(vals: Seq<Term>) -> Result<Seq<i32>, Fault>
    decreases vals.len(),
{
    if vals.len() == 0 {
        Ok(Seq::empty())
    } else {
        match numbers_of(vals.drop_last()) {
            Err(f) => Err(f),
            Ok(nums) => match vals.last() {
                Term::SelfEvaluation(Atom::Num(n)) => Ok(nums.push(n)),
                other => Err(Fault::TypeError(other)),
            },
        }
    }
}

/// The names of procedure parameters, or a `TypeError` for the first
/// parameter that is not a symbol.
pub open spec fn names_of(params: Seq<Term>) -> Result<Seq<Seq<char>>, Fault>
    decreases params.len(),
{
    if params.len() == 0 {
        Ok(Seq::empty())
    } else {
        match names_of(params.drop_last()) {
            Err(f) => Err(f),
            Ok(names) => match params.last() {
                Term::Symbol(name) => Ok(names.push(name)),
                other => Err(Fault::TypeError(other)),
            },
        }
    }
}

/// The frame that binds each name to the value at the same place, bound in
/// order, so that of two equal names the later one wins.
pub open spec fn frame_for(names: Seq<Seq<char>>, vals: Seq<Term>) -> Frame
    decreases names.len(),
{
    if names.len() == 0 || vals.len() == 0 {
        Frame::empty()
    } else {
        frame_for(names.drop_last(), vals.drop_last()).insert(names.last(), vals.last())
    }
}

/// Evaluates `t` in `env` with at most `depth` levels of nesting: the
/// outcome and the frames afterwards.
pub open spec fn eval_term(t: Term, env: Frames, depth: nat) -> (Result<Term, Fault>, Frames)
    decreases depth, 0nat, 0nat,
{
    if depth == 0 {
        (Err(Fault::DepthExceeded), env)
    } else {
        match t {
            Term::SelfEvaluation(_) => (Ok(t), env),
            Term::Lambda(_, _) => (Ok(t), env),
            Term::Symbol(name) => match lookup_in(env, name) {
                Some(v) => (Ok(v), env),
                None => (Err(Fault::UndefinedSymbol(name)), env),
            },
            Term::Define(name, value) => {
                let (r, env1) = eval_term(*value, env, (depth - 1) as nat);
                match r {
                    Ok(v) => (Ok(v), define_in(env1, name, v)),
                    Err(f) => (Err(f), env1),
                }
            },
            Term::Procedure(func, args) => {
                let (rf, env1) = eval_term(*func, env, (depth - 1) as nat);
                match rf {
                    Err(f) => (Err(f), env1),
                    Ok(fv) => {
                        let (ra, env2) = eval_terms(args, env1, (depth - 1) as nat);
                        match ra {
                            Err(f) => (Err(f), env2),
                            Ok(vals) => apply_term(fv, vals, env2, (depth - 1) as nat),
                        }
                    },
                }
            },
        }
    }
}

/// Evaluates `ts` from left to right, each in the frames the previous one
/// left, stopping at the first failure.
pub open spec fn eval_terms(ts: Seq<Term>, env: Frames, depth: nat) -> (
    Result<Seq<Term>, Fault>,
    Frames,
)
    decreases depth, 1nat, ts.len(),
{
    if ts.len() == 0 {
        (Ok(Seq::empty()), env)
    } else {
        let (r, env1) = eval_terms(ts.drop_last(), env, depth);
        match r {
            Err(f) => (Err(f), env1),
            Ok(vals) => {
                let (r2, env2) = eval_term(ts.last(), env1, depth);
                match r2 {
                    Ok(v) => (Ok(vals.push(v)), env2),
                    Err(f) => (Err(f), env2),
                }
            },
        }
    }
}

/// Applies the procedure value `fv` to the evaluated arguments `vals`. An
/// operator computes on numbers. A lambda, which captures no environment,
/// evaluates its body in a new frame pushed onto the frames where it is
/// applied; the frame binds its parameters to the arguments and is dropped
/// afterwards.
pub open spec fn apply_term(fv: Term, vals: Seq<Term>, env: Frames, depth: nat) -> (
    Result<Term, Fault>,
    Frames,
)
    decreases depth, 1nat, 0nat,
{
    match fv {
        Term::SelfEvaluation(Atom::Operater(op)) => match numbers_of(vals) {
            Err(f) => (Err(f), env),
            Ok(nums) => match apply_builtin(op, nums) {
                Ok(n) => (Ok(Term::SelfEvaluation(Atom::Num(n))), env),
                Err(f) => (Err(f), env),
            },
        },
        Term::Lambda(params, body) => match names_of(params) {
            Err(f) => (Err(f), env),
            Ok(names) => {
                if params.len() != vals.len() {
                    (Err(Fault::ArityMismatch(params.len(), vals.len())), env)
                } else {
                    let (r, inner) = eval_term(*body, env.push(frame_for(names, vals)), depth);
                    (r, inner.drop_last())
                }
            },
        },
        _ => (Err(Fault::NotApplicable(fv)), env),
    }
}

/// A failure among the first `k` arguments is the failure of all of them.
proof fn lemma_numbers_prefix(ts: Seq<Term>, k: int)
    requires
        0 <= k <= ts.len(),
        numbers_of(ts.subrange(0, k)) is Err,
    ensures
        numbers_of(ts) == numbers_of(ts.subrange(0, k)),
    decreases ts.len(),
{
    if k == ts.len() {
        assert(ts.subrange(0, k) =~= ts);
    } else {
        assert(ts.drop_last().subrange(0, k) =~= ts.subrange(0, k));
        lemma_numbers_prefix(ts.drop_last(), k);
    }
}

/// A failure among the first `k` parameters is the failure of all of them.
proof fn lemma_names_prefix(ts: Seq<Term>, k: int)
    requires
        0 <= k <= ts.len(),
        names_of(ts.subrange(0, k)) is Err,
    ensures
        names_of(ts) == names_of(ts.subrange(0, k)),
    decreases ts.len(),
{
    if k == ts.len() {
        assert(ts.subrange(0, k) =~= ts);
    } else {
        assert(ts.drop_last().subrange(0, k) =~= ts.subrange(0, k));
        lemma_names_prefix(ts.drop_last(), k);
    }
}

/// Evaluating arguments stops at the first failure: a failure among the first
/// `k` is the outcome of evaluating all of them.
proof fn lemma_eval_terms_prefix(ts: Seq<Term>, env: Frames, depth: nat, k: int)
    requires
        0 <= k <= ts.len(),
        eval_terms(ts.subrange(0, k), env, depth).0 is Err,
    ensures
        eval_terms(ts, env, depth) == eval_terms(ts.subrange(0, k), env, depth),
    decreases ts.len(),
{
    if k == ts.len() {
        assert(ts.subrange(0, k) =~= ts);
    } else {
        assert(ts.drop_last().subrange(0, k) =~= ts.subrange(0, k));
        lemma_eval_terms_prefix(ts.drop_last(), env, depth, k);
    }
}

/// The numbers among evaluated arguments.
fn collect_numbers(vals: &Vec<Expr>) -> (r: Result<Vec<i32>, EvalError>)
    ensures
        match r {
            Ok(nums) => numbers_of(terms_of(vals@)) == Ok::<Seq<i32>, Fault>(nums@),
            Err(e) => numbers_of(terms_of(vals@)) == Err::<Seq<i32>, Fault>(e@),
        },
{
    let ghost ts = terms_of(vals@);
    proof {
        lemma_terms_of(vals@);
    }
    let mut nums: Vec<i32> = Vec::with_capacity(vals.len());
    let mut i: usize = 0;
    while i < vals.len()
        invariant
            i <= vals.len(),
            ts == terms_of(vals@),
            ts.len() == vals.len(),
            forall|j: int| 0 <= j < vals.len() ==> #[trigger] ts[j] == vals@[j]@,
            numbers_of(ts.subrange(0, i as int)) == Ok::<Seq<i32>, Fault>(nums@),
        decreases vals.len() - i,
    {
        assert(ts.subrange(0, i + 1).drop_last() =~= ts.subrange(0, i as int));
        assert(ts.subrange(0, i + 1).last() == vals@[i as int]@);
        match &vals[i] {
            Expr::SelfEvaluation(Atom::Num(n)) => nums.push(*n),
            other => {
                proof {
                    lemma_numbers_prefix(ts, i + 1);
                }
                return Err(EvalError::TypeError(other.clone()));
            },
        }
        i = i + 1;
    }
    assert(ts.subrange(0, vals.len() as int) =~= ts);
    Ok(nums)
}

/// The names of procedure parameters.
fn collect_names(params: &Vec<Expr>) -> (r: Result<Vec<String>, EvalError>)
    ensures
        match r {
            Ok(names) => {
                &&& names.len() == params.len()
                &&& names_of(terms_of(params@)) == Ok::<Seq<Seq<char>>, Fault>(
                    names@.map_values(|s: String| s@),
                )
            },
            Err(e) => names_of(terms_of(params@)) == Err::<Seq<Seq<char>>, Fault>(e@),
        },
{
    let ghost ts = terms_of(params@);
    proof {
        lemma_terms_of(params@);
    }
    let mut names: Vec<String> = Vec::with_capacity(params.len());
    assert(names@.map_values(|s: String| s@) =~= Seq::<Seq<char>>::empty());
    assert(ts.subrange(0, 0) =~= Seq::<Term>::empty());
    let mut i: usize = 0;
    while i < params.len()
        invariant
            i <= params.len(),
            ts == terms_of(params@),
            ts.len() == params.len(),
            forall|j: int| 0 <= j < params.len() ==> #[trigger] ts[j] == params@[j]@,
            names.len() == i,
            names_of(ts.subrange(0, i as int)) == Ok::<Seq<Seq<char>>, Fault>(
                names@.map_values(|s: String| s@),
            ),
        decreases params.len() - i,
    {
        assert(ts.subrange(0, i + 1).drop_last() =~= ts.subrange(0, i as int));
        assert(ts.subrange(0, i + 1).last() == params@[i as int]@);
        match &params[i] {
            Expr::Symbol(name) => {
                let ghost before = names@;
                names.push(name.clone());
                assert(names@.map_values(|s: String| s@) =~= before.map_values(|s: String| s@).push(
                    name@,
                ));
            },
            other => {
                proof {
                    lemma_names_prefix(ts, i + 1);
                }
                return Err(EvalError::TypeError(other.clone()));
            },
        }
        i = i + 1;
    }
    assert(ts.subrange(0, params.len() as int) =~= ts);
    Ok(names)
}

/// Evaluates `expr` with at most `depth` levels of nesting.
fn eval_in(expr: &Expr, env: &mut Environment, depth: usize) -> (r: Result<Expr, EvalError>)
    requires
        old(env).wf(),
    ensures
        final(env).wf(),
        final(env)@.len() == old(env)@.len(),
        (result_of(r), final(env)@) == eval_term(expr@, old(env)@, depth as nat),
    decreases depth, 0nat, 0nat,
{
    if depth == 0 {
        return Err(EvalError::DepthExceeded);
    }
    match expr {
        Expr::SelfEvaluation(a) => Ok(Expr::SelfEvaluation(*a)),
        Expr::Lambda(_, _) => Ok(expr.clone()),
        Expr::Symbol(name) => match env.lookup(name.as_str()) {
            Some(v) => Ok(v),
            None => Err(EvalError::UndefinedSymbol(name.clone())),
        },
        Expr::Define(name, value) => {
            let v = match eval_in(&**value, env, depth - 1) {
                Ok(v) => v,
                Err(e) => return Err(e),
            };
            env.add(name.clone(), v.clone());
            Ok(v)
        },
        Expr::Procedure(func, args) => {
            let fv = match eval_in(&**func, env, depth - 1) {
                Ok(v) => v,
                Err(e) => return Err(e),
            };
            let vals = match eval_args(args, env, depth - 1) {
                Ok(vals) => vals,
                Err(e) => return Err(e),
            };
            apply_value(fv, vals, env, depth - 1)
        },
    }
}

/// Evaluates arguments from left to right.
fn eval_args(args: &Vec<Expr>, env: &mut Environment, depth: usize) -> (r: Result<
    Vec<Expr>,
    EvalError,
>)
    requires
        old(env).wf(),
    ensures
        final(env).wf(),
        final(env)@.len() == old(env)@.len(),
        eval_terms(terms_of(args@), old(env)@, depth as nat) == (
            match r {
                Ok(vals) => Ok(terms_of(vals@)),
                Err(e) => Err(e@),
            },
            final(env)@,
        ),
    decreases depth, 1nat, 0nat,
{
    let ghost ts = terms_of(args@);
    proof {
        lemma_terms_of(args@);
    }
    let mut vals: Vec<Expr> = Vec::with_capacity(args.len());
    let mut i: usize = 0;
    while i < args.len()
        invariant
            i <= args.len(),
            env.wf(),
            env@.len() == old(env)@.len(),
            ts == terms_of(args@),
            ts.len() == args.len(),
            forall|j: int| 0 <= j < args.len() ==> #[trigger] ts[j] == args@[j]@,
            eval_terms(ts.subrange(0, i as int), old(env)@, depth as nat) == (
                Ok::<Seq<Term>, Fault>(terms_of(vals@)),
                env@,
            ),
        decreases args.len() - i,
    {
        assert(ts.subrange(0, i + 1).drop_last() =~= ts.subrange(0, i as int));
        assert(ts.subrange(0, i + 1).last() == args@[i as int]@);
        match eval_in(&args[i], env, depth) {
            Ok(v) => {
                let ghost before = vals@;
                vals.push(v);
                assert(vals@.drop_last() =~= before);
            },
            Err(e) => {
                proof {
                    lemma_eval_terms_prefix(ts, old(env)@, depth as nat, i + 1);
                }
                return Err(e);
            },
        }
        i = i + 1;
    }
    assert(ts.subrange(0, args.len() as int) =~= ts);
    Ok(vals)
}

/// Applies a procedure value to evaluated arguments.
fn apply_value(fv: Expr, vals: Vec<Expr>, env: &mut Environment, depth: usize) -> (r: Result<
    Expr,
    EvalError,
>)
    requires
        old(env).wf(),
    ensures
        final(env).wf(),
        final(env)@.len() == old(env)@.len(),
        (result_of(r), final(env)@) == apply_term(fv@, terms_of(vals@), old(env)@, depth as nat),
    decreases depth, 1nat, 0nat,
{
    proof {
        lemma_terms_of(vals@);
    }
    match fv {
        Expr::SelfEvaluation(Atom::Operater(op)) => {
            let nums = match collect_numbers(&vals) {
                Ok(nums) => nums,
                Err(e) => return Err(e),
            };
            match apply_builtin_op(op, &nums) {
                Ok(n) => Ok(Expr::SelfEvaluation(Atom::Num(n))),
                Err(e) => Err(e),
            }
        },
        Expr::Lambda(params, body) => {
            proof {
                lemma_terms_of(params@);
            }
            let names = match collect_names(&params) {
                Ok(names) => names,
                Err(e) => return Err(e),
            };
            if params.len() != vals.len() {
                return Err(EvalError::ArityMismatch(params.len(), vals.len()));
            }
            let ghost base = env@;
            let ghost nv = names@.map_values(|s: String| s@);
            let ghost tv = terms_of(vals@);
            env.push_scope();
            assert(frame_for(nv.subrange(0, 0), tv.subrange(0, 0)) == Frame::empty());
            let mut i: usize = 0;
            while i < names.len()
                invariant
                    names.len() == vals.len(),
                    i <= names.len(),
                    nv == names@.map_values(|s: String| s@),
                    tv == terms_of(vals@),
                    tv.len() == vals.len(),
                    forall|j: int| 0 <= j < vals.len() ==> #[trigger] tv[j] == vals@[j]@,
                    env.wf(),
                    env@ == base.push(frame_for(nv.subrange(0, i as int), tv.subrange(0, i as int))),
                decreases names.len() - i,
            {
                assert(nv.subrange(0, i + 1).drop_last() =~= nv.subrange(0, i as int));
                assert(tv.subrange(0, i + 1).drop_last() =~= tv.subrange(0, i as int));
                let ghost frame = frame_for(nv.subrange(0, i + 1), tv.subrange(0, i + 1));
                env.add(names[i].clone(), vals[i].clone());
                assert(env@ =~= base.push(frame));
                i = i + 1;
            }
            assert(nv.subrange(0, i as int) =~= nv);
            assert(tv.subrange(0, i as int) =~= tv);
            let r = eval_in(&*body, env, depth);
            env.pop_scope();
            r
        },
        other => Err(EvalError::NotApplicable(other)),
    }
}

/// Evaluates `expr` in `env`. A `define` binds in the innermost frame of
/// `env`, where later evaluations see it.
pub fn eval(expr: Expr, env: &mut Environment) -> (r: Result<Expr, EvalError>)
    requires
        old(env).wf(),
    ensures
        final(env).wf(),
        (result_of(r), final(env)@) == eval_term(expr@, old(env)@, EVAL_DEPTH as nat),
{
    eval_in(&expr, env, EVAL_DEPTH)
}

/// A value: what evaluation returns when the frames bind only values.
pub open spec fn is_value(t: Term) -> bool {
    t is SelfEvaluation || t is Lambda
}

/// Whether every binding of every frame is a value.
pub open spec fn holds_values(env: Frames) -> bool {
    forall|i: int, k: Seq<char>|
        0 <= i < env.len() && #[trigger] env[i].contains_key(k) ==> is_value(env[i][k])
}

/// Over frames that bind only values, a lookup finds a value.
proof fn lemma_lookup_value(env: Frames, name: Seq<char>)
    requires
        holds_values(env),
    ensures
        lookup_in(env, name) matches Some(v) ==> is_value(v),
    decreases env.len(),
{
    if env.len() > 0 && !env.last().contains_key(name) {
        assert(holds_values(env.drop_last())) by {
            assert forall|i: int, k: Seq<char>|
                0 <= i < env.drop_last().len() && #[trigger] env.drop_last()[i].contains_key(
                    k,
                ) implies is_value(env.drop_last()[i][k]) by {
                assert(env.drop_last()[i] == env[i]);
            }
        }
        lemma_lookup_value(env.drop_last(), name);
    }
}

/// A frame that binds values binds only values.
proof fn lemma_frame_for_values(names: Seq<Seq<char>>, vals: Seq<Term>)
    requires
        forall|i: int| 0 <= i < vals.len() ==> is_value(#[trigger] vals[i]),
    ensures
        forall|k: Seq<char>| #[trigger]
            frame_for(names, vals).contains_key(k) ==> is_value(frame_for(names, vals)[k]),
    decreases names.len(),
{
    if names.len() > 0 && vals.len() > 0 {
        assert forall|i: int| 0 <= i < vals.drop_last().len() implies is_value(
            #[trigger] vals.drop_last()[i],
        ) by {
            assert(vals.drop_last()[i] == vals[i]);
        }
        lemma_frame_for_values(names.drop_last(), vals.drop_last());
        assert(is_value(vals[vals.len() - 1]));
        let before = frame_for(names.drop_last(), vals.drop_last());
        assert forall|k: Seq<char>| #[trigger]
            frame_for(names, vals).contains_key(k) implies is_value(frame_for(names, vals)[k]) by {
            if k != names.last() {
                assert(before.contains_key(k));
            }
        }
    }
}

/// Binding a value keeps the frames binding only values.
proof fn lemma_define_values(env: Frames, name: Seq<char>, v: Term)
    requires
        holds_values(env),
        is_value(v),
    ensures
        holds_values(define_in(env, name, v)),
        define_in(env, name, v).len() == env.len(),
{
    let after = define_in(env, name, v);
    assert forall|i: int, k: Seq<char>|
        0 <= i < after.len() && #[trigger] after[i].contains_key(k) implies is_value(after[i][k]) by {
        if i == env.len() - 1 && k == name {
        } else {
            assert(env[i].contains_key(k));
        }
    }
}

/// Evaluation keeps the number of frames; over frames that bind only values
/// it returns a value and leaves frames that bind only values.
proof fn lemma_eval_term_shape(t: Term, env: Frames, depth: nat)
    ensures
        eval_term(t, env, depth).1.len() == env.len(),
        holds_values(env) ==> holds_values(eval_term(t, env, depth).1),
        holds_values(env) ==> (eval_term(t, env, depth).0 matches Ok(v) ==> is_value(v)),
    decreases depth, 0nat, 0nat,
{
    if depth > 0 {
        let d = (depth - 1) as nat;
        match t {
            Term::Symbol(name) => {
                if holds_values(env) {
                    lemma_lookup_value(env, name);
                }
            },
            Term::Define(name, value) => {
                lemma_eval_term_shape(*value, env, d);
                let (r, env1) = eval_term(*value, env, d);
                if let Ok(v) = r {
                    if holds_values(env) {
                        lemma_define_values(env1, name, v);
                    }
                }
            },
            Term::Procedure(func, args) => {
                lemma_eval_term_shape(*func, env, d);
                let (rf, env1) = eval_term(*func, env, d);
                if let Ok(fv) = rf {
                    lemma_eval_terms_shape(args, env1, d);
                    let (ra, env2) = eval_terms(args, env1, d);
                    if let Ok(vals) = ra {
                        lemma_apply_term_shape(fv, vals, env2, d);
                    }
                }
            },
            _ => {},
        }
    }
}

/// Evaluating arguments keeps the number of frames; over frames that bind
/// only values it returns values and leaves frames that bind only values.
proof fn lemma_eval_terms_shape(ts: Seq<Term>, env: Frames, depth: nat)
    ensures
        eval_terms(ts, env, depth).1.len() == env.len(),
        holds_values(env) ==> holds_values(eval_terms(ts, env, depth).1),
        holds_values(env) ==> (eval_terms(ts, env, depth).0 matches Ok(vals) ==> forall|i: int|
            0 <= i < vals.len() ==> is_value(#[trigger] vals[i])),
    decreases depth, 1nat, ts.len(),
{
    if ts.len() > 0 {
        lemma_eval_terms_shape(ts.drop_last(), env, depth);
        let (r, env1) = eval_terms(ts.drop_last(), env, depth);
        if let Ok(vals) = r {
            lemma_eval_term_shape(ts.last(), env1, depth);
            let (r2, env2) = eval_term(ts.last(), env1, depth);
            if let Ok(v) = r2 {
                if holds_values(env) {
                    assert forall|i: int| 0 <= i < vals.push(v).len() implies is_value(
                        #[trigger] vals.push(v)[i],
                    ) by {
                        if i < vals.len() {
                            assert(vals.push(v)[i] == vals[i]);
                        }
                    }
                }
            }
        }
    }
}

/// Applying a procedure keeps the number of frames; applied to values over
/// frames that bind only values it returns a value and leaves frames that
/// bind only values.
proof fn lemma_apply_term_shape(fv: Term, vals: Seq<Term>, env: Frames, depth: nat)
    ensures
        apply_term(fv, vals, env, depth).1.len() == env.len(),
        holds_values(env) && (forall|i: int| 0 <= i < vals.len() ==> is_value(#[trigger] vals[i]))
            ==> holds_values(apply_term(fv, vals, env, depth).1),
        holds_values(env) && (forall|i: int| 0 <= i < vals.len() ==> is_value(#[trigger] vals[i]))
            ==> (apply_term(fv, vals, env, depth).0 matches Ok(v) ==> is_value(v)),
    decreases depth, 1nat, 0nat,
{
    if let Term::Lambda(params, body) = fv {
        if let Ok(names) = names_of(params) {
            if params.len() == vals.len() {
                let inner_env = env.push(frame_for(names, vals));
                lemma_eval_term_shape(*body, inner_env, depth);
                let (r, inner) = eval_term(*body, inner_env, depth);
                if holds_values(env) && (forall|i: int|
                    0 <= i < vals.len() ==> is_value(#[trigger] vals[i])) {
                    lemma_frame_for_values(names, vals);
                    assert(holds_values(inner_env)) by {
                        assert forall|i: int, k: Seq<char>|
                            0 <= i < inner_env.len() && #[trigger] inner_env[i].contains_key(
                                k,
                            ) implies is_value(inner_env[i][k]) by {
                            if i < env.len() {
                                assert(inner_env[i] == env[i]);
                            }
                        }
                    }
                    assert(holds_values(inner.drop_last())) by {
                        assert forall|i: int, k: Seq<char>|
                            0 <= i < inner.drop_last().len()
                                && #[trigger] inner.drop_last()[i].contains_key(
                                k,
                            ) implies is_value(inner.drop_last()[i][k]) by {
                            assert(inner.drop_last()[i] == inner[i]);
                        }
                    }
                }
            }
        }
    }
}

/// Evaluating a value gives the value back and leaves the frames as they
/// were: numbers, booleans, operators and lambdas evaluate to themselves.
pub proof fn lemma_value_evaluates_to_itself(v: Term, env: Frames, depth: nat)
    requires
        is_value(v),
        depth >= 1,
    ensures
        eval_term(v, env, depth) == (Ok::<Term, Fault>(v), env),
{
}

/// Evaluating again what an evaluation returned, against the frames that
/// evaluation left, returns the same value and changes no frame, as long as
/// the frames bound only values to begin with.
pub proof fn lemma_reevaluation_is_stable(t: Term, env: Frames, depth: nat, again: nat)
    requires
        holds_values(env),
        again >= 1,
    ensures
        eval_term(t, env, depth).0 matches Ok(v) ==> eval_term(v, eval_term(t, env, depth).1, again)
            == (Ok::<Term, Fault>(v), eval_term(t, env, depth).1),
{
    lemma_eval_term_shape(t, env, depth);
}

/// After `(define name e)` evaluates to a value, looking `name` up in the
/// frames it leaves gives that value.
pub proof fn lemma_define_then_lookup(name: Seq<char>, e: Term, env: Frames, depth: nat)
    requires
        env.len() >= 1,
    ensures
        eval_term(Term::Define(name, Box::new(e)), env, depth).0 matches Ok(v) ==> lookup_in(
            eval_term(Term::Define(name, Box::new(e)), env, depth).1,
            name,
        ) == Some(v),
{
    if depth > 0 {
        lemma_eval_term_shape(e, env, (depth - 1) as nat);
    }
}

/// Whether evaluating `t` binds no name in the frames it is evaluated in:
/// it holds no `define` outside the bodies of lambdas.
pub open spec fn binds_nothing(t: Term) -> bool
    decreases t, 0nat,
{
    match t {
        Term::Define(_, _) => false,
        Term::Procedure(func, args) => binds_nothing(*func) && all_bind_nothing(args),
        _ => true,
    }
}

/// Whether no expression of `ts` binds a name.
pub open spec fn all_bind_nothing(ts: Seq<Term>) -> bool
    decreases ts, 1nat,
{
    if ts.len() == 0 {
        true
    } else {
        all_bind_nothing(ts.drop_last()) && binds_nothing(ts.last())
    }
}

/// Evaluation changes at most the innermost frame, and none at all where the
/// expression binds nothing.
proof fn lemma_eval_term_frames(t: Term, env: Frames, depth: nat)
    ensures
        env.len() >= 1 ==> eval_term(t, env, depth).1.drop_last() == env.drop_last(),
        binds_nothing(t) ==> eval_term(t, env, depth).1 == env,
    decreases depth, 0nat, 0nat,
{
    if depth > 0 {
        let d = (depth - 1) as nat;
        match t {
            Term::Define(name, value) => {
                lemma_eval_term_frames(*value, env, d);
                lemma_eval_term_shape(*value, env, d);
                let (r, env1) = eval_term(*value, env, d);
                if let Ok(v) = r {
                    if env.len() >= 1 {
                        assert(define_in(env1, name, v).drop_last() =~= env1.drop_last());
                    }
                }
            },
            Term::Procedure(func, args) => {
                lemma_eval_term_frames(*func, env, d);
                lemma_eval_term_shape(*func, env, d);
                let (rf, env1) = eval_term(*func, env, d);
                if let Ok(fv) = rf {
                    lemma_eval_terms_frames(args, env1, d);
                    lemma_eval_terms_shape(args, env1, d);
                    let (ra, env2) = eval_terms(args, env1, d);
                    if let Ok(vals) = ra {
                        lemma_apply_term_frames(fv, vals, env2, d);
                    }
                }
            },
            _ => {},
        }
    }
}

/// Evaluating arguments changes at most the innermost frame, and none at all
/// where no argument binds a name.
proof fn lemma_eval_terms_frames(ts: Seq<Term>, env: Frames, depth: nat)
    ensures
        env.len() >= 1 ==> eval_terms(ts, env, depth).1.drop_last() == env.drop_last(),
        all_bind_nothing(ts) ==> eval_terms(ts, env, depth).1 == env,
    decreases depth, 1nat, ts.len(),
{
    if ts.len() > 0 {
        lemma_eval_terms_frames(ts.drop_last(), env, depth);
        lemma_eval_terms_shape(ts.drop_last(), env, depth);
        let (r, env1) = eval_terms(ts.drop_last(), env, depth);
        if let Ok(vals) = r {
            lemma_eval_term_frames(ts.last(), env1, depth);
        }
    }
}

/// Applying a procedure leaves the frames as they were: a lambda's body binds
/// only in the frame that the application pushes and then drops.
proof fn lemma_apply_term_frames(fv: Term, vals: Seq<Term>, env: Frames, depth: nat)
    ensures
        apply_term(fv, vals, env, depth).1 == env,
    decreases depth, 1nat, 0nat,
{
    if let Term::Lambda(params, body) = fv {
        if let Ok(names) = names_of(params) {
            if params.len() == vals.len() {
                let inner_env = env.push(frame_for(names, vals));
                lemma_eval_term_frames(*body, inner_env, depth);
                assert(inner_env.drop_last() =~= env);
            }
        }
    }
}

/// Evaluating an expression that holds no `define` outside lambda bodies
/// leaves the frames as they were, whether it succeeds or fails.
pub proof fn lemma_evaluation_without_define_keeps_frames(t: Term, env: Frames, depth: nat)
    requires
        binds_nothing(t),
    ensures
        eval_term(t, env, depth).1 == env,
{
    lemma_eval_term_frames(t, env, depth);
}

/// Whether two lists of frames give the same value, or none, for every name.
pub open spec fn agree(e1: Frames, e2: Frames) -> bool {
    forall|n: Seq<char>| #[trigger] lookup_in(e1, n) == lookup_in(e2, n)
}

proof fn lemma_lookup_define(env: Frames, name: Seq<char>, v: Term, n: Seq<char>)
    requires
        env.len() >= 1,
    ensures
        lookup_in(define_in(env, name, v), n) == if n == name {
            Some(v)
        } else {
            lookup_in(env, n)
        },
{
    assert(define_in(env, name, v).drop_last() =~= env.drop_last());
}

proof fn lemma_lookup_push(env: Frames, f: Frame, n: Seq<char>)
    ensures
        lookup_in(env.push(f), n) == if f.contains_key(n) {
            Some(f[n])
        } else {
            lookup_in(env, n)
        },
{
    assert(env.push(f).drop_last() =~= env);
}

proof fn lemma_agree_define(e1: Frames, e2: Frames, name: Seq<char>, v: Term)
    requires
        agree(e1, e2),
        e1.len() >= 1,
        e2.len() >= 1,
    ensures
        agree(define_in(e1, name, v), define_in(e2, name, v)),
{
    assert forall|n: Seq<char>| #[trigger]
        lookup_in(define_in(e1, name, v), n) == lookup_in(define_in(e2, name, v), n) by {
        lemma_lookup_define(e1, name, v, n);
        lemma_lookup_define(e2, name, v, n);
        assert(lookup_in(e1, n) == lookup_in(e2, n));
    }
}

proof fn lemma_agree_push(e1: Frames, e2: Frames, f: Frame)
    requires
        agree(e1, e2),
    ensures
        agree(e1.push(f), e2.push(f)),
{
    assert forall|n: Seq<char>| #[trigger] lookup_in(e1.push(f), n) == lookup_in(e2.push(f), n) by {
        lemma_lookup_push(e1, f, n);
        lemma_lookup_push(e2, f, n);
        assert(lookup_in(e1, n) == lookup_in(e2, n));
    }
}

/// Evaluation reads the frames only through lookups.
proof fn lemma_eval_term_agree(t: Term, e1: Frames, e2: Frames, depth: nat)
    requires
        agree(e1, e2),
        e1.len() >= 1,
        e2.len() >= 1,
    ensures
        eval_term(t, e1, depth).0 == eval_term(t, e2, depth).0,
        agree(eval_term(t, e1, depth).1, eval_term(t, e2, depth).1),
    decreases depth, 0nat, 0nat,
{
    if depth > 0 {
        let d = (depth - 1) as nat;
        match t {
            Term::Symbol(name) => {
                assert(lookup_in(e1, name) == lookup_in(e2, name));
            },
            Term::Define(name, value) => {
                lemma_eval_term_agree(*value, e1, e2, d);
                lemma_eval_term_shape(*value, e1, d);
                lemma_eval_term_shape(*value, e2, d);
                if let Ok(v) = eval_term(*value, e1, d).0 {
                    lemma_agree_define(eval_term(*value, e1, d).1, eval_term(*value, e2, d).1, name, v);
                }
            },
            Term::Procedure(func, args) => {
                lemma_eval_term_agree(*func, e1, e2, d);
                lemma_eval_term_shape(*func, e1, d);
                lemma_eval_term_shape(*func, e2, d);
                let (rf, f1) = eval_term(*func, e1, d);
                let f2 = eval_term(*func, e2, d).1;
                if let Ok(fv) = rf {
                    lemma_eval_terms_agree(args, f1, f2, d);
                    lemma_eval_terms_shape(args, f1, d);
                    lemma_eval_terms_shape(args, f2, d);
                    let (ra, a1) = eval_terms(args, f1, d);
                    let a2 = eval_terms(args, f2, d).1;
                    if let Ok(vals) = ra {
                        lemma_apply_term_agree(fv, vals, a1, a2, d);
                        lemma_apply_term_frames(fv, vals, a1, d);
                        lemma_apply_term_frames(fv, vals, a2, d);
                    }
                }
            },
            _ => {},
        }
    }
}

proof fn lemma_eval_terms_agree(ts: Seq<Term>, e1: Frames, e2: Frames, depth: nat)
    requires
        agree(e1, e2),
        e1.len() >= 1,
        e2.len() >= 1,
    ensures
        eval_terms(ts, e1, depth).0 == eval_terms(ts, e2, depth).0,
        agree(eval_terms(ts, e1, depth).1, eval_terms(ts, e2, depth).1),
    decreases depth, 1nat, ts.len(),
{
    if ts.len() > 0 {
        lemma_eval_terms_agree(ts.drop_last(), e1, e2, depth);
        lemma_eval_terms_shape(ts.drop_last(), e1, depth);
        lemma_eval_terms_shape(ts.drop_last(), e2, depth);
        let (r, p1) = eval_terms(ts.drop_last(), e1, depth);
        let p2 = eval_terms(ts.drop_last(), e2, depth).1;
        if let Ok(vals) = r {
            lemma_eval_term_agree(ts.last(), p1, p2, depth);
        }
    }
}

proof fn lemma_apply_term_agree(fv: Term, vals: Seq<Term>, e1: Frames, e2: Frames, depth: nat)
    requires
        agree(e1, e2),
        e1.len() >= 1,
        e2.len() >= 1,
    ensures
        apply_term(fv, vals, e1, depth).0 == apply_term(fv, vals, e2, depth).0,
    decreases depth, 1nat, 0nat,
{
    if let Term::Lambda(params, body) = fv {
        if let Ok(names) = names_of(params) {
            if params.len() == vals.len() {
                let f = frame_for(names, vals);
                lemma_agree_push(e1, e2, f);
                lemma_eval_term_agree(*body, e1.push(f), e2.push(f), depth);
            }
        }
    }
}

/// Evaluation depends on the frames only through what they bind: against
/// two environments that give the same value, or none, for every name, an
/// expression gives the same outcome and leaves environments that again
/// agree on every name.
pub proof fn lemma_evaluation_depends_on_lookups(t: Term, e1: Frames, e2: Frames, depth: nat)
    requires
        e1.len() >= 1,
        e2.len() >= 1,
        agree(e1, e2),
    ensures
        eval_term(t, e1, depth).0 == eval_term(t, e2, depth).0,
        agree(eval_term(t, e1, depth).1, eval_term(t, e2, depth).1),
{
    lemma_eval_term_agree(t, e1, e2, depth);
}

} // verus!
