//! One turn of the read-eval-print cycle, and the environment it starts
//! from.

use vstd::prelude::*;
use crate::env::{Env, Scope};
use crate::error::{agrees, Fault, MalError};
use crate::eval::{eval, is_data, lemma_data_evaluates_to_itself, EVAL};
use crate::printer::print;
use crate::reader::{read_str, read_text};
use crate::types::{MalVal, Native, Value};

verus! {

/// The scope that binds the four arithmetic procedures to their names.
pub open spec fn arithmetic_scope() -> Scope {
    Map::empty().insert("+"@, Value::Func(Native::Add)).insert(
        "-"@,
        Value::Func(Native::Sub),
    ).insert("*"@, Value::Func(Native::Mul)).insert("/"@, Value::Func(Native::Div))
}

/// What one turn gives for the text `s` in `env`: the text of the value of
/// the first form of `s`, or the first failure on the way to it; and the
/// environment afterwards, which a text that cannot be read leaves as it
/// is.
pub open spec fn turn(s: Seq<char>, env: Seq<Scope>) -> (Result<Seq<char>, Fault>, Seq<Scope>) {
    match read_text(s) {
        Err(fault) => (Err(fault), env),
        Ok(form) => {
            let out = eval(form, env);
            match out.result {
                Ok(v) => (Ok(print(v)), out.env),
                Err(fault) => (Err(fault), out.env),
            }
        },
    }
}

/// A text that reads as data is answered with the text of that data, and
/// the turn leaves the environment as it was.
pub proof fn lemma_turn_on_data(s: Seq<char>, env: Seq<Scope>)
    requires
        read_text(s) matches Ok(v) && is_data(v),
    ensures
        turn(s, env) == (Ok::<Seq<char>, Fault>(print(read_text(s)->Ok_0)), env),
{
    lemma_data_evaluates_to_itself(read_text(s)->Ok_0, env);
}

/// An environment of one scope, which binds `+`, `-`, `*` and `/` to the
/// arithmetic procedures.
pub fn create_env() -> (r: Env)
    ensures
        r@ == seq![arithmetic_scope()],
{
    let mut repl_env = Env::new(None);
    repl_env.set(String::from_str("+"), MalVal::Func(Native::Add));
    repl_env.set(String::from_str("-"), MalVal::Func(Native::Sub));
    repl_env.set(String::from_str("*"), MalVal::Func(Native::Mul));
    repl_env.set(String::from_str("/"), MalVal::Func(Native::Div));
    assert(repl_env@ =~= seq![arithmetic_scope()]);
    repl_env
}

/// Reads the first form of a text.
pub fn READ(s: String) -> (r: Result<MalVal, MalError>)
    ensures
        agrees(r, read_text(s@)),
{
    read_str(s)
}

/// The one-line text of a value.
pub fn PRINT(val: MalVal) -> (r: String)
    ensures
        r@ == print(val@),
{
    val.to_string()
}

/// Reads the first form of `s`, evaluates it in `repl_env` and prints the
/// value.
pub fn rep(s: String, repl_env: &mut Env) -> (r: Result<String, MalError>)
    ensures
        match turn(s@, old(repl_env)@).0 {
            Ok(text) => r matches Ok(out) && out@ == text,
            Err(fault) => r matches Err(e) && e@ == fault,
        },
        final(repl_env)@ == turn(s@, old(repl_env)@).1,
{
    let ast = match READ(s) {
        Ok(ast) => ast,
        Err(e) => {
            return Err(e);
        },
    };
    match EVAL(ast, repl_env) {
        Ok(value) => Ok(PRINT(value)),
        Err(e) => Err(e),
    }
}

} // verus!
