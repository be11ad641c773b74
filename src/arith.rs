//! The arithmetic of the builtin operators on `i32`.

use vstd::prelude::*;

use crate::error::{outcome_of, EvalError, Fault};
use crate::syntax::BuiltinOp;

verus! {

/// One step of an operator's left fold, or `None` where the result leaves
/// the range of `i32` (or the divisor is zero, which `apply_builtin` rules
/// out before it folds).
pub open spec fn step(op: BuiltinOp, acc: i32, n: i32) -> Option<i32> {
    match op {
        BuiltinOp::Plus => acc.checked_add(n),
        BuiltinOp::Minus => acc.checked_sub(n),
        BuiltinOp::Times => acc.checked_mul(n),
        BuiltinOp::Divide => acc.checked_div(n),
    }
}

/// Folds `op` over `rest` from the left, starting from `acc`.
pub open spec fn fold_op(op: BuiltinOp, acc: i32, rest: Seq<i32>) -> Result<i32, Fault>
    decreases rest.len(),
{
    if rest.len() == 0 {
        Ok(acc)
    } else {
        match step(op, acc, rest[0]) {
            Some(next) => fold_op(op, next, rest.drop_first()),
            None => Err(Fault::Overflow(op)),
        }
    }
}

/// What an operator gives on its evaluated arguments: `+` and `*` fold from
/// their identities, a unary `-` negates, a longer `-` adds up the rest and
/// subtracts that sum from the first, and `/` divides the first by each of the rest in turn,
/// truncating toward zero; any zero divisor is an error. A unary `/` is
/// defined only on one.
pub open spec fn apply_builtin(op: BuiltinOp, nums: Seq<i32>) -> Result<i32, Fault> {
    match op {
        BuiltinOp::Plus => fold_op(op, 0, nums),
        BuiltinOp::Times => fold_op(op, 1, nums),
        BuiltinOp::Minus => {
            if nums.len() == 0 {
                Err(Fault::MissingArgument(op))
            } else if nums.len() == 1 {
                fold_op(op, 0, nums)
            } else {
                match fold_op(BuiltinOp::Plus, 0, nums.drop_first()) {
                    Ok(rest) => match nums[0].checked_sub(rest) {
                        Some(v) => Ok(v),
                        None => Err(Fault::Overflow(op)),
                    },
                    Err(_) => Err(Fault::Overflow(op)),
                }
            }
        },
        BuiltinOp::Divide => {
            if nums.len() == 0 {
                Err(Fault::MissingArgument(op))
            } else if nums.len() == 1 {
                if nums[0] == 0 {
                    Err(Fault::DivisionByZero)
                } else if nums[0] == 1 {
                    Ok(1)
                } else {
                    Err(Fault::NoIntegerReciprocal(nums[0]))
                }
            } else if nums.drop_first().contains(0) {
                Err(Fault::DivisionByZero)
            } else {
                fold_op(op, nums[0], nums.drop_first())
            }
        },
    }
}

/// The sum of a sequence of numbers.
pub open spec fn sum_of(nums: Seq<i32>) -> int
    decreases nums.len(),
{
    if nums.len() == 0 {
        0
    } else {
        nums[0] + sum_of(nums.drop_first())
    }
}

/// The product of a sequence of numbers.
pub open spec fn product_of(nums: Seq<i32>) -> int
    decreases nums.len(),
{
    if nums.len() == 0 {
        1
    } else {
        nums[0] * product_of(nums.drop_first())
    }
}

/// A fold that succeeds adds, subtracts or multiplies in the rest exactly.
proof fn lemma_fold_meaning(op: BuiltinOp, acc: i32, rest: Seq<i32>)
    ensures
        fold_op(op, acc, rest) matches Ok(v) ==> {
            &&& op == BuiltinOp::Plus ==> v == acc + sum_of(rest)
            &&& op == BuiltinOp::Minus ==> v == acc - sum_of(rest)
            &&& op == BuiltinOp::Times ==> v == acc * product_of(rest)
        },
    decreases rest.len(),
{
    if rest.len() > 0 {
        if let Some(next) = step(op, acc, rest[0]) {
            lemma_fold_meaning(op, next, rest.drop_first());
            if op == BuiltinOp::Times {
                let p = product_of(rest.drop_first());
                assert((acc * rest[0]) * p == acc * (rest[0] * p)) by (nonlinear_arith);
            }
        }
    }
}

/// What an operator computes when it succeeds: `+` the sum of its
/// arguments, `*` their product, and `-` the negation of a single argument
/// or the first minus the sum of the rest.
pub proof fn lemma_builtin_meaning(op: BuiltinOp, nums: Seq<i32>)
    ensures
        apply_builtin(op, nums) matches Ok(v) ==> {
            &&& op == BuiltinOp::Plus ==> v == sum_of(nums)
            &&& op == BuiltinOp::Times ==> v == product_of(nums)
            &&& op == BuiltinOp::Minus && nums.len() == 1 ==> v == -nums[0]
            &&& op == BuiltinOp::Minus && nums.len() >= 2 ==> v == nums[0] - sum_of(
                nums.drop_first(),
            )
        },
{
    match op {
        BuiltinOp::Plus => lemma_fold_meaning(op, 0, nums),
        BuiltinOp::Times => lemma_fold_meaning(op, 1, nums),
        BuiltinOp::Minus => {
            if nums.len() == 1 {
                lemma_fold_meaning(op, 0, nums);
                assert(sum_of(nums.drop_first()) == 0);
            } else if nums.len() >= 2 {
                lemma_fold_meaning(BuiltinOp::Plus, 0, nums.drop_first());
            }
        },
        BuiltinOp::Divide => {},
    }
}

/// One step of a fold, with the overflow check of `step`.
fn checked_step(op: BuiltinOp, acc: i32, n: i32) -> (r: Option<i32>)
    ensures
        r == step(op, acc, n),
{
    match op {
        BuiltinOp::Plus => acc.checked_add(n),
        BuiltinOp::Minus => acc.checked_sub(n),
        BuiltinOp::Times => acc.checked_mul(n),
        BuiltinOp::Divide => acc.checked_div(n),
    }
}

/// Folds `op` over `nums[from..]` from the left, starting from `init`.
fn fold_from(op: BuiltinOp, init: i32, nums: &Vec<i32>, from: usize) -> (r: Result<i32, EvalError>)
    requires
        from <= nums.len(),
    ensures
        outcome_of(r) == fold_op(op, init, nums@.subrange(from as int, nums.len() as int)),
{
    let ghost whole = nums@.subrange(from as int, nums.len() as int);
    let mut acc = init;
    let mut i = from;
    while i < nums.len()
        invariant
            from <= i <= nums.len(),
            whole == nums@.subrange(from as int, nums.len() as int),
            fold_op(op, init, whole) == fold_op(op, acc, nums@.subrange(i as int, nums.len() as int)),
        decreases nums.len() - i,
    {
        let ghost rest = nums@.subrange(i as int, nums.len() as int);
        assert(rest.drop_first() =~= nums@.subrange(i + 1, nums.len() as int));
        let n = nums[i];
        assert(rest[0] == n);
        match checked_step(op, acc, n) {
            Some(next) => acc = next,
            None => return Err(EvalError::Overflow(op)),
        }
        i = i + 1;
    }
    Ok(acc)
}

/// Whether a number after the first is zero.
fn has_zero_divisor(nums: &Vec<i32>) -> (r: bool)
    requires
        nums.len() >= 1,
    ensures
        r == nums@.drop_first().contains(0),
{
    let mut i: usize = 1;
    while i < nums.len()
        invariant
            1 <= i <= nums.len(),
            forall|j: int| 1 <= j < i ==> nums@[j] != 0,
        decreases nums.len() - i,
    {
        if nums[i] == 0 {
            assert(nums@.drop_first()[i - 1] == 0);
            return true;
        }
        i = i + 1;
    }
    assert forall|j: int| 0 <= j < nums@.drop_first().len() implies nums@.drop_first()[j] != 0 by {
        assert(nums@.drop_first()[j] == nums@[j + 1]);
    }
    false
}

/// Applies a builtin operator to numeric arguments.
pub fn apply_builtin_op(op: BuiltinOp, nums: &Vec<i32>) -> (r: Result<i32, EvalError>)
    ensures
        outcome_of(r) == apply_builtin(op, nums@),
{
    proof {
        assert(nums@.subrange(0, nums.len() as int) =~= nums@);
        if nums.len() > 0 {
            assert(nums@.subrange(1, nums.len() as int) =~= nums@.drop_first());
        }
    }
    match op {
        BuiltinOp::Plus => fold_from(op, 0, nums, 0),
        BuiltinOp::Times => fold_from(op, 1, nums, 0),
        BuiltinOp::Minus => {
            if nums.len() == 0 {
                Err(EvalError::MissingArgument(op))
            } else if nums.len() == 1 {
                fold_from(op, 0, nums, 0)
            } else {
                match fold_from(BuiltinOp::Plus, 0, nums, 1) {
                    Ok(rest) => match nums[0].checked_sub(rest) {
                        Some(v) => Ok(v),
                        None => Err(EvalError::Overflow(op)),
                    },
                    Err(_) => Err(EvalError::Overflow(op)),
                }
            }
        },
        BuiltinOp::Divide => {
            if nums.len() == 0 {
                Err(EvalError::MissingArgument(op))
            } else if nums.len() == 1 {
                if nums[0] == 0 {
                    Err(EvalError::DivisionByZero)
                } else if nums[0] == 1 {
                    Ok(1)
                } else {
                    Err(EvalError::NoIntegerReciprocal(nums[0]))
                }
            } else if has_zero_divisor(nums) {
                Err(EvalError::DivisionByZero)
            } else {
                fold_from(op, nums[0], nums, 1)
            }
        },
    }
}

} // verus!
