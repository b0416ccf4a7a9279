//! The failures of the reader, the environment and the evaluator.
//!
//! Every failure is a value returned through `Result`; nothing in this
//! crate aborts.

use vstd::prelude::*;
use crate::types::{MalVal, Value};

verus! {

/// Failure of the tokenizer.
#[derive(Debug, Clone, Copy, PartialEq, Eq, Structural)]
pub enum TokenizeError {
    /// The text ends inside a double-quoted string.
    UnterminatedString,
}

/// Failure of the parser.
#[derive(Debug, Clone, Copy, PartialEq, Eq, Structural)]
pub enum ReaderError {
    /// The tokens end where a form is expected.
    Eof,
    /// A closing bracket stands where no sequence it could close is open.
    UnexpectedToken,
    /// A map literal with an odd number of forms, with a key that is
    /// neither a string nor a keyword, or with keys of both kinds.
    MalformedMap,
    /// Sequences and reader macros nest deeper than the reader follows.
    RecursionLimitExceeded,
}

/// Failure of an environment operation.
#[derive(Debug, PartialEq, Eq)]
pub enum EnvError {
    /// No scope of the chain binds the name.
    NotFound(String),
    /// The number of arguments differs from the number of parameters.
    ArityMismatch,
    /// The parameter list is not a list of symbols.
    MalformedParameters,
}

/// The mathematical image of an [`EnvError`].
pub ghost enum EnvFault {
    NotFound(Seq<char>),
    ArityMismatch,
    MalformedParameters,
}

impl View for EnvError {
    type V = EnvFault;

    open spec fn view(&self) -> EnvFault {
        match self {
            EnvError::NotFound(name) => EnvFault::NotFound(name@),
            EnvError::ArityMismatch => EnvFault::ArityMismatch,
            EnvError::MalformedParameters => EnvFault::MalformedParameters,
        }
    }
}

/// Failure of the evaluator proper, or of a built-in procedure.
#[derive(Debug, Clone, Copy, PartialEq, Eq, Structural)]
pub enum EvalError {
    /// The head of an application did not evaluate to a procedure.
    NotCallable,
    /// A `def!` or `let*` form of the wrong shape.
    MalformedSpecialForm,
    /// An arithmetic procedure applied to no argument.
    NoArguments,
    /// An arithmetic procedure applied to something that is not an integer.
    NotAnInteger,
    /// A division whose divisor is zero.
    DivisionByZero,
    /// An arithmetic result outside the range of the integer type.
    Overflow,
}

/// Any failure of this crate.
#[derive(Debug, PartialEq, Eq)]
pub enum MalError {
    Tokenize(TokenizeError),
    Reader(ReaderError),
    Env(EnvError),
    Eval(EvalError),
}

/// The mathematical image of a [`MalError`].
pub ghost enum Fault {
    Tokenize(TokenizeError),
    Reader(ReaderError),
    Env(EnvFault),
    Eval(EvalError),
}

impl View for MalError {
    type V = Fault;

    open spec fn view(&self) -> Fault {
        match self {
            MalError::Tokenize(e) => Fault::Tokenize(*e),
            MalError::Reader(e) => Fault::Reader(*e),
            MalError::Env(e) => Fault::Env(e@),
            MalError::Eval(e) => Fault::Eval(*e),
        }
    }
}

impl Fault {
    /// The text that reports the failure.
    pub open spec fn message(self) -> Seq<char> {
        match self {
            Fault::Tokenize(TokenizeError::UnterminatedString) => "EOF inside a string"@,
            Fault::Reader(ReaderError::Eof) => "EOF"@,
            Fault::Reader(ReaderError::UnexpectedToken) => "unexpected closing bracket"@,
            Fault::Reader(ReaderError::MalformedMap) => "malformed map literal"@,
            Fault::Reader(ReaderError::RecursionLimitExceeded) => "recursion limit exceeded"@,
            Fault::Env(EnvFault::NotFound(name)) => name + " not found"@,
            Fault::Env(EnvFault::ArityMismatch) => "wrong number of arguments"@,
            Fault::Env(EnvFault::MalformedParameters) => "malformed parameter list"@,
            Fault::Eval(EvalError::NotCallable) => "not callable"@,
            Fault::Eval(EvalError::MalformedSpecialForm) => "malformed special form"@,
            Fault::Eval(EvalError::NoArguments) => "no arguments"@,
            Fault::Eval(EvalError::NotAnInteger) => "not an integer"@,
            Fault::Eval(EvalError::DivisionByZero) => "division by zero"@,
            Fault::Eval(EvalError::Overflow) => "integer overflow"@,
        }
    }
}

impl MalError {
    /// The text that reports the failure.
    pub fn to_string(&self) -> (r: String)
        ensures
            r@ == self@.message(),
    {
        match self {
            MalError::Tokenize(TokenizeError::UnterminatedString) => String::from_str(
                "EOF inside a string",
            ),
            MalError::Reader(ReaderError::Eof) => String::from_str("EOF"),
            MalError::Reader(ReaderError::UnexpectedToken) => String::from_str(
                "unexpected closing bracket",
            ),
            MalError::Reader(ReaderError::MalformedMap) => String::from_str(
                "malformed map literal",
            ),
            MalError::Reader(ReaderError::RecursionLimitExceeded) => String::from_str(
                "recursion limit exceeded",
            ),
            MalError::Env(EnvError::NotFound(name)) => name.clone().concat(" not found"),
            MalError::Env(EnvError::ArityMismatch) => String::from_str(
                "wrong number of arguments",
            ),
            MalError::Env(EnvError::MalformedParameters) => String::from_str(
                "malformed parameter list",
            ),
            MalError::Eval(EvalError::NotCallable) => String::from_str("not callable"),
            MalError::Eval(EvalError::MalformedSpecialForm) => String::from_str(
                "malformed special form",
            ),
            MalError::Eval(EvalError::NoArguments) => String::from_str("no arguments"),
            MalError::Eval(EvalError::NotAnInteger) => String::from_str("not an integer"),
            MalError::Eval(EvalError::DivisionByZero) => String::from_str("division by zero"),
            MalError::Eval(EvalError::Overflow) => String::from_str("integer overflow"),
        }
    }
}

/// `r` is the executable form of `expected`: the same success with a
/// value of the same image, or the same failure.
pub open spec fn agrees(r: Result<MalVal, MalError>, expected: Result<Value, Fault>) -> bool {
    match expected {
        Ok(v) => r matches Ok(x) && x@ == v,
        Err(fault) => r matches Err(e) && e@ == fault,
    }
}

} // verus!
