//! The built-in procedures: integer arithmetic that folds its arguments
//! from the left.

use vstd::prelude::*;
use crate::error::EvalError;
use crate::types::{MalVal, Native, Value, view_items};

verus! {

/// `n` if it is in the range of the integer type, else an overflow.
pub open spec fn in_range(n: int) -> Result<int, EvalError> {
    if isize::MIN <= n <= isize::MAX {
        Ok(n)
    } else {
        Err(EvalError::Overflow)
    }
}

/// The quotient of `a` by `b`, rounded toward zero. `b` is not zero.
pub open spec fn quotient(a: int, b: int) -> int {
    if a >= 0 && b > 0 {
        a / b
    } else if a < 0 && b < 0 {
        (-a) / (-b)
    } else if a < 0 {
        -((-a) / b)
    } else {
        -(a / (-b))
    }
}

/// One step of a fold: `a` combined with `b` by the operator `f`.
pub open spec fn combine(f: Native, a: int, b: int) -> Result<int, EvalError> {
    match f {
        Native::Add => in_range(a + b),
        Native::Sub => in_range(a - b),
        Native::Mul => in_range(a * b),
        Native::Div => if b == 0 {
            Err(EvalError::DivisionByZero)
        } else {
            in_range(quotient(a, b))
        },
    }
}

/// The fold of the first `n` arguments by `f`, from the left: the first
/// argument alone, then combined with each of the next in turn. The first
/// argument that is no integer, or the first step that fails, ends the fold.
pub open spec fn fold_args(f: Native, args: Seq<Value>, n: nat) -> Result<int, EvalError>
    decreases n,
{
    if n == 0 || n > args.len() {
        Err(EvalError::NoArguments)
    } else if n == 1 {
        match args[0] {
            Value::Int(a) => Ok(a),
            _ => Err(EvalError::NotAnInteger),
        }
    } else {
        match fold_args(f, args, (n - 1) as nat) {
            Err(e) => Err(e),
            Ok(acc) => match args[n - 1] {
                Value::Int(b) => combine(f, acc, b),
                _ => Err(EvalError::NotAnInteger),
            },
        }
    }
}

/// The result of the procedure `f` on the arguments `args`.
pub open spec fn apply_native(f: Native, args: Seq<Value>) -> Result<Value, EvalError> {
    match fold_args(f, args, args.len()) {
        Ok(n) => Ok(Value::Int(n)),
        Err(e) => Err(e),
    }
}

/// A procedure applied to one integer returns that integer.
pub proof fn lemma_one_argument(f: Native, n: int)
    ensures
        apply_native(f, seq![Value::Int(n)]) == Ok::<Value, EvalError>(Value::Int(n)),
{
}

/// A procedure applied to no argument fails, whatever the procedure.
pub proof fn lemma_no_argument(f: Native)
    ensures
        apply_native(f, Seq::empty()) == Err::<Value, EvalError>(EvalError::NoArguments),
{
}

/// One step of a fold on machine integers.
fn step(f: Native, a: isize, b: isize) -> (r: Result<isize, EvalError>)
    ensures
        match combine(f, a as int, b as int) {
            Ok(n) => r == Ok::<isize, EvalError>(n as isize),
            Err(e) => r == Err::<isize, EvalError>(e),
        },
{
    let done = match f {
        Native::Add => a.checked_add(b),
        Native::Sub => a.checked_sub(b),
        Native::Mul => a.checked_mul(b),
        Native::Div => {
            if b == 0 {
                return Err(EvalError::DivisionByZero);
            }
            a.checked_div(b)
        },
    };
    match done {
        Some(n) => Ok(n),
        None => Err(EvalError::Overflow),
    }
}

/// Applies the procedure `f` to the arguments `args`.
pub fn apply(f: Native, args: &Vec<MalVal>) -> (r: Result<MalVal, EvalError>)
    ensures
        match apply_native(f, view_items(args@)) {
            Ok(v) => r matches Ok(x) && x@ == v,
            Err(e) => r matches Err(x) && x == e,
        },
{
    let ghost model = view_items(args@);
    if args.len() == 0 {
        return Err(EvalError::NoArguments);
    }
    let mut acc: isize = match &args[0] {
        MalVal::Int(a) => *a,
        _ => {
            proof {
                lemma_fold_failure(f, model, 1, args.len() as nat);
            }
            return Err(EvalError::NotAnInteger);
        },
    };
    let mut i: usize = 1;
    while i < args.len()
        invariant
            1 <= i <= args.len(),
            model == view_items(args@),
            fold_args(f, model, i as nat) == Ok::<int, EvalError>(acc as int),
        decreases args.len() - i,
    {
        let b = match &args[i] {
            MalVal::Int(b) => *b,
            _ => {
                proof {
                    lemma_fold_failure(f, model, (i + 1) as nat, args.len() as nat);
                }
                return Err(EvalError::NotAnInteger);
            },
        };
        match step(f, acc, b) {
            Ok(n) => {
                acc = n;
            },
            Err(e) => {
                proof {
                    lemma_fold_failure(f, model, (i + 1) as nat, args.len() as nat);
                }
                return Err(e);
            },
        }
        i = i + 1;
    }
    Ok(MalVal::Int(acc))
}

/// A fold that has failed stays failed, with the same failure, however
/// many arguments follow.
proof fn lemma_fold_failure(f: Native, args: Seq<Value>, n: nat, m: nat)
    requires
        1 <= n <= m <= args.len(),
        fold_args(f, args, n) is Err,
    ensures
        fold_args(f, args, m) == fold_args(f, args, n),
    decreases m - n,
{
    if n < m {
        lemma_fold_failure(f, args, n, (m - 1) as nat);
    }
}

} // verus!
