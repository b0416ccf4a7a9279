//! The evaluator: what a form is worth in an environment, and what the
//! environment is afterwards.

use vstd::prelude::*;
use crate::env::{
    define, enter, lemma_define_keeps_outer, lemma_define_well_formed, lemma_enter_well_formed,
    lemma_lookup_defined, lemma_lookup_unbound, lemma_lookup_well_formed, lookup,
    well_formed_scopes, Env, Scope,
};
use crate::error::{agrees, EnvFault, EvalError, Fault, MalError};
use crate::natives::{apply, apply_native};
use crate::text::text_is;
use crate::types::{MalVal, Value, view_entries, view_items};

verus! {

/// What evaluating one form gives: its result, and the environment as the
/// evaluation left it. A failed evaluation keeps the bindings it made
/// before it failed.
pub ghost struct Evaluated {
    pub result: Result<Value, Fault>,
    pub env: Seq<Scope>,
}

/// What evaluating some forms in turn gives.
pub ghost struct EvaluatedItems {
    pub result: Result<Seq<Value>, Fault>,
    pub env: Seq<Scope>,
}

/// What evaluating the values of some hash entries in turn gives.
pub ghost struct EvaluatedEntries {
    pub result: Result<Seq<(Seq<char>, Value)>, Fault>,
    pub env: Seq<Scope>,
}

/// What binding some names in turn gives.
pub ghost struct Bound {
    pub failure: Option<Fault>,
    pub env: Seq<Scope>,
}

/// A `def!` form of the right shape: the head, a symbol, and a form to
/// evaluate. What follows them is ignored.
pub open spec fn def_shape(items: Seq<Value>) -> bool {
    items.len() >= 3 && items[1] is Symbol
}

/// The binding list of a `let*` form: the items of its second element,
/// which is a list or a vector.
pub open spec fn let_pairs(items: Seq<Value>) -> Option<Seq<Value>> {
    if items.len() >= 2 {
        match items[1] {
            Value::List(pairs) => Some(pairs),
            Value::Vector(pairs) => Some(pairs),
            _ => None,
        }
    } else {
        None
    }
}

/// The number of pairs in a binding list, a last name without a form
/// counted as one.
pub open spec fn pair_count(pairs: Seq<Value>) -> nat {
    ((pairs.len() + 1) / 2) as nat
}

/// The failure of a special form of the wrong shape, in `env`.
pub open spec fn malformed(env: Seq<Scope>) -> Evaluated {
    Evaluated { result: Err(Fault::Eval(EvalError::MalformedSpecialForm)), env }
}

/// What a form is worth in `env`, and what `env` is afterwards.
///
/// Only a non-empty list is more than its parts: `def!` binds a name in
/// the innermost scope, `let*` evaluates its body in a scope of its own
/// and leaves `env` as it was, and any other list applies the value of
/// its head to the values of the rest. A `def!` of the wrong shape fails
/// before anything is evaluated; a `let*` fails at once where it has no
/// binding list, and else at the first pair that is wrong, or at the body
/// where that is missing, when their turn comes.
pub open spec fn eval(form: Value, env: Seq<Scope>) -> Evaluated
    decreases form, 1nat,
{
    match form {
        Value::List(items) => if items.len() == 0 {
            Evaluated { result: Ok(form), env }
        } else if items[0] == Value::Symbol("def!"@) {
            if def_shape(items) {
                let value = eval(items[2], env);
                match value.result {
                    Ok(v) => Evaluated {
                        result: Ok(v),
                        env: define(value.env, items[1]->Symbol_0, v),
                    },
                    Err(_) => value,
                }
            } else {
                malformed(env)
            }
        } else if items[0] == Value::Symbol("let*"@) {
            match let_pairs(items) {
                None => malformed(env),
                Some(pairs) => {
                    let bound = bind_pairs(pairs, pair_count(pairs), enter(env));
                    match bound.failure {
                        Some(fault) => Evaluated { result: Err(fault), env },
                        None => if items.len() >= 3 {
                            Evaluated { result: eval(items[2], bound.env).result, env }
                        } else {
                            malformed(env)
                        },
                    }
                },
            }
        } else {
            let parts = eval_parts(form, env);
            match parts.result {
                Ok(Value::List(values)) => Evaluated { result: call(values), env: parts.env },
                _ => parts,
            }
        },
        _ => eval_parts(form, env),
    }
}

/// The first value applied to the rest: it has to be a procedure.
pub open spec fn call(values: Seq<Value>) -> Result<Value, Fault> {
    if values.len() > 0 && values[0] is Func {
        match apply_native(values[0]->Func_0, values.skip(1)) {
            Ok(v) => Ok(v),
            Err(e) => Err(Fault::Eval(e)),
        }
    } else {
        Err(Fault::Eval(EvalError::NotCallable))
    }
}

/// A form evaluated part by part: a symbol is looked up, the items of a
/// list or a vector and the values of a hash are evaluated from left to
/// right, and anything else is worth itself.
pub open spec fn eval_parts(form: Value, env: Seq<Scope>) -> Evaluated
    decreases form, 0nat,
{
    match form {
        Value::Symbol(name) => match lookup(env, name) {
            Some(v) => Evaluated { result: Ok(v), env },
            None => Evaluated { result: Err(Fault::Env(EnvFault::NotFound(name))), env },
        },
        Value::List(items) => {
            let parts = eval_items(items, items.len(), env);
            match parts.result {
                Ok(values) => Evaluated { result: Ok(Value::List(values)), env: parts.env },
                Err(fault) => Evaluated { result: Err(fault), env: parts.env },
            }
        },
        Value::Vector(items) => {
            let parts = eval_items(items, items.len(), env);
            match parts.result {
                Ok(values) => Evaluated { result: Ok(Value::Vector(values)), env: parts.env },
                Err(fault) => Evaluated { result: Err(fault), env: parts.env },
            }
        },
        Value::Hash(entries) => {
            let parts = eval_entries(entries, entries.len(), env);
            match parts.result {
                Ok(values) => Evaluated { result: Ok(Value::Hash(values)), env: parts.env },
                Err(fault) => Evaluated { result: Err(fault), env: parts.env },
            }
        },
        _ => Evaluated { result: Ok(form), env },
    }
}

/// The first `n` items evaluated from left to right, each in the
/// environment that the one before it left. The first failure ends it.
pub open spec fn eval_items(items: Seq<Value>, n: nat, env: Seq<Scope>) -> EvaluatedItems
    decreases items, n,
{
    if n == 0 || n > items.len() {
        EvaluatedItems { result: Ok(Seq::empty()), env }
    } else {
        let before = eval_items(items, (n - 1) as nat, env);
        match before.result {
            Err(_) => before,
            Ok(values) => {
                let last = eval(items[n - 1], before.env);
                match last.result {
                    Ok(v) => EvaluatedItems { result: Ok(values.push(v)), env: last.env },
                    Err(fault) => EvaluatedItems { result: Err(fault), env: last.env },
                }
            },
        }
    }
}

/// The values of the first `n` entries evaluated from left to right, each
/// in the environment that the one before it left; the keys stay as they
/// are. The first failure ends it.
pub open spec fn eval_entries(
    entries: Seq<(Seq<char>, Value)>,
    n: nat,
    env: Seq<Scope>,
) -> EvaluatedEntries
    decreases entries, n,
{
    if n == 0 || n > entries.len() {
        EvaluatedEntries { result: Ok(Seq::empty()), env }
    } else {
        let before = eval_entries(entries, (n - 1) as nat, env);
        match before.result {
            Err(_) => before,
            Ok(values) => {
                let last = eval(entries[n - 1].1, before.env);
                match last.result {
                    Ok(v) => EvaluatedEntries {
                        result: Ok(values.push((entries[n - 1].0, v))),
                        env: last.env,
                    },
                    Err(fault) => EvaluatedEntries { result: Err(fault), env: last.env },
                }
            },
        }
    }
}

/// The first `n` pairs of a binding list bound from left to right. The
/// name of a pair has to be a symbol and its form has to be there; the
/// form is then evaluated in the environment that the pair before it left,
/// and the name bound in the innermost scope, so a form sees the names
/// bound before it. The first failure ends it.
pub open spec fn bind_pairs(pairs: Seq<Value>, n: nat, env: Seq<Scope>) -> Bound
    decreases pairs, n,
{
    if n == 0 || n > pair_count(pairs) {
        Bound { failure: None, env }
    } else {
        let before = bind_pairs(pairs, (n - 1) as nat, env);
        if before.failure is Some {
            before
        } else if !(pairs[2 * n - 2] is Symbol) || 2 * n > pairs.len() {
            Bound {
                failure: Some(Fault::Eval(EvalError::MalformedSpecialForm)),
                env: before.env,
            }
        } else {
            let value = eval(pairs[2 * n - 1], before.env);
            match value.result {
                Ok(v) => Bound {
                    failure: None,
                    env: define(value.env, pairs[2 * n - 2]->Symbol_0, v),
                },
                Err(fault) => Bound { failure: Some(fault), env: value.env },
            }
        }
    }
}

/// `after` has the scopes of `before`, but for the innermost, which may
/// differ.
pub open spec fn same_outer(before: Seq<Scope>, after: Seq<Scope>) -> bool {
    after.len() == before.len() && after.skip(1) == before.skip(1)
}

/// Evaluation binds names in the innermost scope only: the scopes behind
/// it, and their number, are afterwards what they were.
pub proof fn lemma_eval_frame(form: Value, env: Seq<Scope>)
    requires
        env.len() >= 1,
    ensures
        same_outer(env, eval(form, env).env),
    decreases form, 1nat,
{
    match form {
        Value::List(items) => {
            if items.len() == 0 {
            } else if items[0] == Value::Symbol("def!"@) {
                if def_shape(items) {
                    lemma_eval_frame(items[2], env);
                    let value = eval(items[2], env);
                    if let Ok(v) = value.result {
                        lemma_define_keeps_outer(value.env, items[1]->Symbol_0, v);
                    }
                }
            } else if items[0] == Value::Symbol("let*"@) {
            } else {
                lemma_eval_parts_frame(form, env);
            }
        },
        _ => {
            lemma_eval_parts_frame(form, env);
        },
    }
}

/// Part-by-part evaluation changes the innermost scope only.
pub proof fn lemma_eval_parts_frame(form: Value, env: Seq<Scope>)
    requires
        env.len() >= 1,
    ensures
        same_outer(env, eval_parts(form, env).env),
    decreases form, 0nat,
{
    match form {
        Value::List(items) => {
            lemma_eval_items_frame(items, items.len(), env);
        },
        Value::Vector(items) => {
            lemma_eval_items_frame(items, items.len(), env);
        },
        Value::Hash(entries) => {
            lemma_eval_entries_frame(entries, entries.len(), env);
        },
        _ => {},
    }
}

/// Evaluating items in turn changes the innermost scope only.
pub proof fn lemma_eval_items_frame(items: Seq<Value>, n: nat, env: Seq<Scope>)
    requires
        env.len() >= 1,
    ensures
        same_outer(env, eval_items(items, n, env).env),
    decreases items, n,
{
    if !(n == 0 || n > items.len()) {
        lemma_eval_items_frame(items, (n - 1) as nat, env);
        let before = eval_items(items, (n - 1) as nat, env);
        if before.result is Ok {
            lemma_eval_frame(items[n - 1], before.env);
        }
    }
}

/// Evaluating the values of entries in turn changes the innermost scope
/// only.
pub proof fn lemma_eval_entries_frame(
    entries: Seq<(Seq<char>, Value)>,
    n: nat,
    env: Seq<Scope>,
)
    requires
        env.len() >= 1,
    ensures
        same_outer(env, eval_entries(entries, n, env).env),
    decreases entries, n,
{
    if !(n == 0 || n > entries.len()) {
        lemma_eval_entries_frame(entries, (n - 1) as nat, env);
        let before = eval_entries(entries, (n - 1) as nat, env);
        if before.result is Ok {
            lemma_eval_frame(entries[n - 1].1, before.env);
        }
    }
}

/// Binding pairs in turn changes the innermost scope only.
pub proof fn lemma_bind_pairs_frame(pairs: Seq<Value>, n: nat, env: Seq<Scope>)
    requires
        env.len() >= 1,
    ensures
        same_outer(env, bind_pairs(pairs, n, env).env),
    decreases pairs, n,
{
    if !(n == 0 || n > pair_count(pairs)) {
        lemma_bind_pairs_frame(pairs, (n - 1) as nat, env);
        let before = bind_pairs(pairs, (n - 1) as nat, env);
        if before.failure is None && pairs[2 * n - 2] is Symbol && 2 * n <= pairs.len() {
            lemma_eval_frame(pairs[2 * n - 1], before.env);
            let value = eval(pairs[2 * n - 1], before.env);
            if let Ok(v) = value.result {
                lemma_define_keeps_outer(value.env, pairs[2 * n - 2]->Symbol_0, v);
            }
        }
    }
}

/// A form that holds no symbol and no list but the empty one: data, with
/// nothing in it to look up or to apply.
pub open spec fn is_data(v: Value) -> bool
    decreases v,
{
    match v {
        Value::Symbol(_) => false,
        Value::List(items) => items.len() == 0,
        Value::Vector(items) => forall|i: int| 0 <= i < items.len() ==> is_data(items[i]),
        Value::Hash(entries) => forall|i: int| 0 <= i < entries.len() ==> is_data(entries[i].1),
        _ => true,
    }
}

/// Data is worth itself, in every environment, and its evaluation leaves
/// the environment as it was.
pub proof fn lemma_data_evaluates_to_itself(v: Value, env: Seq<Scope>)
    requires
        is_data(v),
    ensures
        eval(v, env) == (Evaluated { result: Ok(v), env }),
    decreases v, 1nat,
{
    if !(v is List) {
        assert(eval(v, env) == eval_parts(v, env));
    }
    match v {
        Value::Vector(items) => {
            lemma_data_items(items, items.len(), env);
            assert(items.take(items.len() as int) =~= items);
        },
        Value::Hash(entries) => {
            lemma_data_entries(entries, entries.len(), env);
            assert(entries.take(entries.len() as int) =~= entries);
        },
        _ => {},
    }
}

/// Items that are data are worth themselves.
proof fn lemma_data_items(items: Seq<Value>, n: nat, env: Seq<Scope>)
    requires
        n <= items.len(),
        forall|i: int| 0 <= i < items.len() ==> is_data(items[i]),
    ensures
        eval_items(items, n, env) == (EvaluatedItems { result: Ok(items.take(n as int)), env }),
    decreases items, n,
{
    if n == 0 {
        assert(items.take(0) =~= Seq::empty());
    } else {
        lemma_data_items(items, (n - 1) as nat, env);
        lemma_data_evaluates_to_itself(items[n - 1], env);
        assert(items.take(n - 1).push(items[n - 1]) =~= items.take(n as int));
    }
}

/// Entries whose values are data are worth themselves.
proof fn lemma_data_entries(entries: Seq<(Seq<char>, Value)>, n: nat, env: Seq<Scope>)
    requires
        n <= entries.len(),
        forall|i: int| 0 <= i < entries.len() ==> is_data(entries[i].1),
    ensures
        eval_entries(entries, n, env) == (EvaluatedEntries {
            result: Ok(entries.take(n as int)),
            env,
        }),
    decreases entries, n,
{
    if n == 0 {
        assert(entries.take(0) =~= Seq::empty());
    } else {
        lemma_data_entries(entries, (n - 1) as nat, env);
        lemma_data_evaluates_to_itself(entries[n - 1].1, env);
        assert(entries.take(n - 1).push(entries[n - 1]) =~= entries.take(n as int));
    }
}

/// A symbol that no scope binds fails to evaluate, and the failure names
/// it.
pub proof fn lemma_unbound_symbol(name: Seq<char>, env: Seq<Scope>)
    requires
        forall|j: int| 0 <= j < env.len() ==> !env[j].contains_key(name),
    ensures
        eval(Value::Symbol(name), env) == (Evaluated {
            result: Err(Fault::Env(EnvFault::NotFound(name))),
            env,
        }),
{
    lemma_lookup_unbound(env, name);
    assert(eval(Value::Symbol(name), env) == eval_parts(Value::Symbol(name), env));
}

/// The `def!` form that binds `name` to the worth of `form`.
pub open spec fn def_form(name: Seq<char>, form: Value) -> Value {
    Value::List(seq![Value::Symbol("def!"@), Value::Symbol(name), form])
}

/// Where `form` has a worth, `def!` returns it and binds the name to it in
/// the innermost scope; the name evaluated next, in the same environment,
/// is worth the same. Where `form` fails, `def!` fails as `form` does and
/// binds nothing.
pub proof fn lemma_def_then_symbol(name: Seq<char>, form: Value, env: Seq<Scope>)
    requires
        env.len() >= 1,
    ensures
        eval(def_form(name, form), env).result == eval(form, env).result,
        match eval(form, env).result {
            Ok(v) => {
                let after = eval(def_form(name, form), env).env;
                &&& after == define(eval(form, env).env, name, v)
                &&& eval(Value::Symbol(name), after) == (Evaluated { result: Ok(v), env: after })
            },
            Err(_) => eval(def_form(name, form), env).env == eval(form, env).env,
        },
{
    let value = eval(form, env);
    lemma_eval_frame(form, env);
    if let Ok(v) = value.result {
        let after = define(value.env, name, v);
        lemma_lookup_defined(value.env, name, v);
        assert(eval(Value::Symbol(name), after) == eval_parts(Value::Symbol(name), after));
    }
}

/// A `let*` form leaves the environment as it was, whether it has a worth
/// or fails: no name that it binds is bound afterwards, and no name bound
/// before has changed.
pub proof fn lemma_let_keeps_env(items: Seq<Value>, env: Seq<Scope>)
    requires
        items.len() > 0,
        items[0] == Value::Symbol("let*"@),
    ensures
        eval(Value::List(items), env).env == env,
        forall|name: Seq<char>|
            lookup(eval(Value::List(items), env).env, name) == lookup(env, name),
{
    reveal_strlit("let*");
    reveal_strlit("def!");
    assert("let*"@[0] != "def!"@[0]);
}

/// Evaluation keeps values well formed: where the form and every value
/// that the environment binds are well formed, so are the worth of the form
/// and every value that the environment binds afterwards.
pub proof fn lemma_eval_well_formed(form: Value, env: Seq<Scope>)
    requires
        env.len() >= 1,
        form.well_formed(),
        well_formed_scopes(env),
    ensures
        well_formed_scopes(eval(form, env).env),
        eval(form, env).result matches Ok(v) ==> v.well_formed(),
    decreases form, 1nat,
{
    match form {
        Value::List(items) => {
            if items.len() == 0 {
            } else if items[0] == Value::Symbol("def!"@) {
                if def_shape(items) {
                    lemma_eval_well_formed(items[2], env);
                    lemma_eval_frame(items[2], env);
                    let value = eval(items[2], env);
                    if let Ok(v) = value.result {
                        lemma_define_well_formed(value.env, items[1]->Symbol_0, v);
                    }
                }
            } else if items[0] == Value::Symbol("let*"@) {
                if let Some(pairs) = let_pairs(items) {
                    assert(items[1].well_formed());
                    lemma_enter_well_formed(env);
                    lemma_bind_pairs_well_formed(pairs, pair_count(pairs), enter(env));
                    lemma_bind_pairs_frame(pairs, pair_count(pairs), enter(env));
                    let bound = bind_pairs(pairs, pair_count(pairs), enter(env));
                    if bound.failure is None && items.len() >= 3 {
                        lemma_eval_well_formed(items[2], bound.env);
                    }
                }
            } else {
                lemma_eval_parts_well_formed(form, env);
            }
        },
        _ => {
            lemma_eval_parts_well_formed(form, env);
        },
    }
}

/// Part-by-part evaluation keeps values well formed.
pub proof fn lemma_eval_parts_well_formed(form: Value, env: Seq<Scope>)
    requires
        env.len() >= 1,
        form.well_formed(),
        well_formed_scopes(env),
    ensures
        well_formed_scopes(eval_parts(form, env).env),
        eval_parts(form, env).result matches Ok(v) ==> v.well_formed(),
    decreases form, 0nat,
{
    match form {
        Value::Symbol(name) => {
            lemma_lookup_well_formed(env, name);
        },
        Value::List(items) => {
            lemma_eval_items_well_formed(items, items.len(), env);
        },
        Value::Vector(items) => {
            lemma_eval_items_well_formed(items, items.len(), env);
        },
        Value::Hash(entries) => {
            lemma_eval_entries_well_formed(entries, entries.len(), env);
            if let Ok(values) = eval_entries(entries, entries.len(), env).result {
                assert forall|i: int, j: int| 0 <= i < j < values.len() implies values[i].0
                    != values[j].0 by {
                    assert(values[i].0 == entries[i].0);
                    assert(values[j].0 == entries[j].0);
                }
            }
        },
        _ => {},
    }
}

/// Evaluating items in turn keeps values well formed, and gives as many
/// values as there were items.
pub proof fn lemma_eval_items_well_formed(items: Seq<Value>, n: nat, env: Seq<Scope>)
    requires
        env.len() >= 1,
        n <= items.len(),
        forall|i: int| 0 <= i < items.len() ==> items[i].well_formed(),
        well_formed_scopes(env),
    ensures
        well_formed_scopes(eval_items(items, n, env).env),
        eval_items(items, n, env).result matches Ok(values) ==> values.len() == n && forall|
            i: int,
        | 0 <= i < n ==> values[i].well_formed(),
    decreases items, n,
{
    if n > 0 {
        lemma_eval_items_well_formed(items, (n - 1) as nat, env);
        lemma_eval_items_frame(items, (n - 1) as nat, env);
        let before = eval_items(items, (n - 1) as nat, env);
        if before.result is Ok {
            lemma_eval_well_formed(items[n - 1], before.env);
        }
    }
}

/// Evaluating the values of entries in turn keeps values well formed, and
/// gives the entries their keys back, in order.
pub proof fn lemma_eval_entries_well_formed(
    entries: Seq<(Seq<char>, Value)>,
    n: nat,
    env: Seq<Scope>,
)
    requires
        env.len() >= 1,
        n <= entries.len(),
        forall|i: int| 0 <= i < entries.len() ==> entries[i].1.well_formed(),
        well_formed_scopes(env),
    ensures
        well_formed_scopes(eval_entries(entries, n, env).env),
        eval_entries(entries, n, env).result matches Ok(values) ==> values.len() == n && forall|
            i: int,
        | 0 <= i < n ==> values[i].0 == entries[i].0 && values[i].1.well_formed(),
    decreases entries, n,
{
    if n > 0 {
        lemma_eval_entries_well_formed(entries, (n - 1) as nat, env);
        lemma_eval_entries_frame(entries, (n - 1) as nat, env);
        let before = eval_entries(entries, (n - 1) as nat, env);
        if before.result is Ok {
            lemma_eval_well_formed(entries[n - 1].1, before.env);
        }
    }
}

/// Binding pairs in turn keeps values well formed.
pub proof fn lemma_bind_pairs_well_formed(pairs: Seq<Value>, n: nat, env: Seq<Scope>)
    requires
        env.len() >= 1,
        forall|i: int| 0 <= i < pairs.len() ==> pairs[i].well_formed(),
        well_formed_scopes(env),
    ensures
        well_formed_scopes(bind_pairs(pairs, n, env).env),
    decreases pairs, n,
{
    if !(n == 0 || n > pair_count(pairs)) {
        lemma_bind_pairs_well_formed(pairs, (n - 1) as nat, env);
        lemma_bind_pairs_frame(pairs, (n - 1) as nat, env);
        let before = bind_pairs(pairs, (n - 1) as nat, env);
        if before.failure is None && pairs[2 * n - 2] is Symbol && 2 * n <= pairs.len() {
            lemma_eval_well_formed(pairs[2 * n - 1], before.env);
            lemma_eval_frame(pairs[2 * n - 1], before.env);
            let value = eval(pairs[2 * n - 1], before.env);
            if let Ok(v) = value.result {
                lemma_define_well_formed(value.env, pairs[2 * n - 2]->Symbol_0, v);
            }
        }
    }
}

/// Items that have failed stay failed, with the same failure and the same
/// environment, however many follow: nothing is evaluated after a failure.
pub proof fn lemma_items_failure(items: Seq<Value>, n: nat, m: nat, env: Seq<Scope>)
    requires
        n <= m <= items.len(),
        eval_items(items, n, env).result is Err,
    ensures
        eval_items(items, m, env) == eval_items(items, n, env),
    decreases m - n,
{
    if n < m {
        lemma_items_failure(items, n, (m - 1) as nat, env);
    }
}

/// Entries that have failed stay failed, however many follow.
pub proof fn lemma_entries_failure(
    entries: Seq<(Seq<char>, Value)>,
    n: nat,
    m: nat,
    env: Seq<Scope>,
)
    requires
        n <= m <= entries.len(),
        eval_entries(entries, n, env).result is Err,
    ensures
        eval_entries(entries, m, env) == eval_entries(entries, n, env),
    decreases m - n,
{
    if n < m {
        lemma_entries_failure(entries, n, (m - 1) as nat, env);
    }
}

/// Pairs that have failed stay failed, however many follow.
pub proof fn lemma_pairs_failure(pairs: Seq<Value>, n: nat, m: nat, env: Seq<Scope>)
    requires
        n <= m <= pair_count(pairs),
        bind_pairs(pairs, n, env).failure is Some,
    ensures
        bind_pairs(pairs, m, env) == bind_pairs(pairs, n, env),
    decreases m - n,
{
    if n < m {
        lemma_pairs_failure(pairs, n, (m - 1) as nat, env);
    }
}

/// Whether `v` is the symbol named `name`.
fn is_symbol(v: &MalVal, name: &str) -> (r: bool)
    ensures
        r == (v@ == Value::Symbol(name@)),
{
    match v {
        MalVal::Symbol(s) => text_is(s, name),
        _ => false,
    }
}

/// Puts back into `env` the chain that lies behind the innermost scope of
/// `child`.
fn leave(env: &mut Env, child: Env)
    requires
        child@.len() >= 2,
    ensures
        final(env)@ == child@.skip(1),
{
    match child.into_outer() {
        Some(outer) => {
            *env = outer;
        },
        None => {},
    }
}

/// Evaluates a form in an environment.
///
/// The result is the worth of the form, and the environment is afterwards
/// what the evaluation made of it, also where the evaluation fails. The
/// calls nest as deep as the form does.
pub fn EVAL(val: MalVal, repl_env: &mut Env) -> (r: Result<MalVal, MalError>)
    ensures
        agrees(r, eval(val@, old(repl_env)@).result),
        final(repl_env)@ == eval(val@, old(repl_env)@).env,
    decreases val@, 1nat,
{
    match val {
        MalVal::List(items) => {
            if items.len() == 0 {
                Ok(MalVal::List(items))
            } else if is_symbol(&items[0], "def!") {
                eval_def(&items, repl_env)
            } else if is_symbol(&items[0], "let*") {
                eval_let(&items, repl_env)
            } else {
                match eval_ast(MalVal::List(items), repl_env) {
                    Ok(MalVal::List(mut values)) => {
                        if values.len() == 0 {
                            return Err(MalError::Eval(EvalError::NotCallable));
                        }
                        let ghost whole = view_items(values@);
                        let head = values.remove(0);
                        match head {
                            MalVal::Func(f) => {
                                assert(view_items(values@) =~= whole.skip(1));
                                match apply(f, &values) {
                                    Ok(v) => Ok(v),
                                    Err(e) => Err(MalError::Eval(e)),
                                }
                            },
                            _ => Err(MalError::Eval(EvalError::NotCallable)),
                        }
                    },
                    Ok(other) => Ok(other),
                    Err(e) => Err(e),
                }
            }
        },
        other => eval_ast(other, repl_env),
    }
}

/// Evaluates a `def!` form, given by its items.
fn eval_def(items: &Vec<MalVal>, env: &mut Env) -> (r: Result<MalVal, MalError>)
    requires
        items@.len() > 0,
        view_items(items@)[0] == Value::Symbol("def!"@),
    ensures
        agrees(r, eval(Value::List(view_items(items@)), old(env)@).result),
        final(env)@ == eval(Value::List(view_items(items@)), old(env)@).env,
    decreases view_items(items@), 0nat,
{
    if items.len() < 3 {
        return Err(MalError::Eval(EvalError::MalformedSpecialForm));
    }
    let name = match &items[1] {
        MalVal::Symbol(name) => name.clone(),
        _ => {
            return Err(MalError::Eval(EvalError::MalformedSpecialForm));
        },
    };
    match EVAL(items[2].clone(), env) {
        Ok(v) => Ok(env.set(name, v)),
        Err(e) => Err(e),
    }
}

/// Evaluates a `let*` form, given by its items.
fn eval_let(items: &Vec<MalVal>, env: &mut Env) -> (r: Result<MalVal, MalError>)
    requires
        items@.len() > 0,
        view_items(items@)[0] == Value::Symbol("let*"@),
        view_items(items@)[0] != Value::Symbol("def!"@),
    ensures
        agrees(r, eval(Value::List(view_items(items@)), old(env)@).result),
        final(env)@ == eval(Value::List(view_items(items@)), old(env)@).env,
    decreases view_items(items@), 0nat,
{
    if items.len() < 2 {
        return Err(MalError::Eval(EvalError::MalformedSpecialForm));
    }
    let pairs: &Vec<MalVal> = match &items[1] {
        MalVal::List(pairs) => pairs,
        MalVal::Vector(pairs) => pairs,
        _ => {
            return Err(MalError::Eval(EvalError::MalformedSpecialForm));
        },
    };
    let ghost forms = view_items(items@);
    let ghost model = view_items(pairs@);
    let ghost start = enter(old(env)@);
    proof {
        env.lemma_has_a_scope();
    }
    let mut outer = Env::new(None);
    core::mem::swap(env, &mut outer);
    let mut child = Env::new(Some(outer));
    let mut j: usize = 0;
    assert(start.skip(1) =~= old(env)@);
    while j < pairs.len()
        invariant
            j <= pairs.len(),
            j % 2 == 0,
            model == view_items(pairs@),
            forms == view_items(items@),
            forms.len() >= 2,
            forms[0] == Value::Symbol("let*"@),
            forms[0] != Value::Symbol("def!"@),
            let_pairs(forms) == Some(model),
            start == enter(old(env)@),
            start.len() >= 2,
            start.skip(1) == old(env)@,
            bind_pairs(model, (j / 2) as nat, start) == (Bound { failure: None, env: child@ }),
            same_outer(start, child@),
        decreases pairs.len() - j,
    {
        let ghost n = (j / 2 + 1) as nat;
        let ghost before = child@;
        assert(2 * n - 2 == j);
        let name = match &pairs[j] {
            MalVal::Symbol(name) => name.clone(),
            _ => {
                proof {
                    lemma_pairs_failure(model, n, pair_count(model), start);
                }
                leave(env, child);
                return Err(MalError::Eval(EvalError::MalformedSpecialForm));
            },
        };
        if j + 1 >= pairs.len() {
            proof {
                lemma_pairs_failure(model, n, pair_count(model), start);
            }
            leave(env, child);
            return Err(MalError::Eval(EvalError::MalformedSpecialForm));
        }
        let item = pairs[j + 1].clone();
        assert(item@ == model[j + 1]);
        match EVAL(item, &mut child) {
            Ok(v) => {
                proof {
                    lemma_eval_frame(model[j + 1], before);
                    lemma_define_keeps_outer(child@, name@, v@);
                }
                child.set(name, v);
            },
            Err(e) => {
                proof {
                    lemma_eval_frame(model[j + 1], before);
                    lemma_pairs_failure(model, n, pair_count(model), start);
                }
                leave(env, child);
                return Err(e);
            },
        }
        j = j + 2;
    }
    assert(pair_count(model) == j / 2);
    if items.len() < 3 {
        leave(env, child);
        return Err(MalError::Eval(EvalError::MalformedSpecialForm));
    }
    let ghost bound = child@;
    let body = items[2].clone();
    assert(body@ == forms[2]);
    let r = EVAL(body, &mut child);
    proof {
        lemma_eval_frame(forms[2], bound);
    }
    leave(env, child);
    r
}

/// Evaluates a form part by part: looks a symbol up, evaluates the items
/// of a list or a vector and the values of a hash from left to right, and
/// returns anything else as it is.
pub fn eval_ast(val: MalVal, repl_env: &mut Env) -> (r: Result<MalVal, MalError>)
    ensures
        agrees(r, eval_parts(val@, old(repl_env)@).result),
        final(repl_env)@ == eval_parts(val@, old(repl_env)@).env,
    decreases val@, 0nat,
{
    match val {
        MalVal::Symbol(sym) => match repl_env.get(sym.as_str()) {
            Ok(v) => Ok(v),
            Err(e) => Err(MalError::Env(e)),
        },
        MalVal::List(vals) => match eval_each(&vals, repl_env) {
            Ok(list) => Ok(MalVal::List(list)),
            Err(e) => Err(e),
        },
        MalVal::Vector(vals) => match eval_each(&vals, repl_env) {
            Ok(list) => Ok(MalVal::Vector(list)),
            Err(e) => Err(e),
        },
        MalVal::Hash(entries) => match eval_values(&entries, repl_env) {
            Ok(hash) => Ok(MalVal::Hash(hash)),
            Err(e) => Err(e),
        },
        other => Ok(other),
    }
}

/// Evaluates `items` from left to right and stops at the first failure.
fn eval_each(items: &Vec<MalVal>, env: &mut Env) -> (r: Result<Vec<MalVal>, MalError>)
    ensures
        match eval_items(view_items(items@), items@.len(), old(env)@).result {
            Ok(values) => r matches Ok(list) && view_items(list@) == values,
            Err(fault) => r matches Err(e) && e@ == fault,
        },
        final(env)@ == eval_items(view_items(items@), items@.len(), old(env)@).env,
    decreases view_items(items@), 0nat,
{
    let ghost model = view_items(items@);
    let mut list: Vec<MalVal> = Vec::new();
    let mut i: usize = 0;
    assert(view_items(list@) =~= Seq::empty());
    while i < items.len()
        invariant
            i <= items.len(),
            model == view_items(items@),
            eval_items(model, i as nat, old(env)@) == (EvaluatedItems {
                result: Ok(view_items(list@)),
                env: env@,
            }),
        decreases items.len() - i,
    {
        let ghost so_far = view_items(list@);
        let item = items[i].clone();
        assert(item@ == model[i as int]);
        match EVAL(item, env) {
            Ok(v) => {
                list.push(v);
                assert(view_items(list@) =~= so_far.push(v@));
            },
            Err(e) => {
                proof {
                    lemma_items_failure(model, (i + 1) as nat, items@.len(), old(env)@);
                }
                return Err(e);
            },
        }
        i = i + 1;
    }
    Ok(list)
}

/// Evaluates the values of `entries` from left to right and stops at the
/// first failure.
fn eval_values(entries: &Vec<(String, MalVal)>, env: &mut Env) -> (r: Result<
    Vec<(String, MalVal)>,
    MalError,
>)
    ensures
        match eval_entries(view_entries(entries@), entries@.len(), old(env)@).result {
            Ok(values) => r matches Ok(hash) && view_entries(hash@) == values,
            Err(fault) => r matches Err(e) && e@ == fault,
        },
        final(env)@ == eval_entries(view_entries(entries@), entries@.len(), old(env)@).env,
    decreases view_entries(entries@), 0nat,
{
    let ghost model = view_entries(entries@);
    let mut hash: Vec<(String, MalVal)> = Vec::new();
    let mut i: usize = 0;
    assert(view_entries(hash@) =~= Seq::empty());
    while i < entries.len()
        invariant
            i <= entries.len(),
            model == view_entries(entries@),
            eval_entries(model, i as nat, old(env)@) == (EvaluatedEntries {
                result: Ok(view_entries(hash@)),
                env: env@,
            }),
        decreases entries.len() - i,
    {
        let ghost so_far = view_entries(hash@);
        let item = entries[i].1.clone();
        assert(item@ == model[i as int].1);
        match EVAL(item, env) {
            Ok(v) => {
                hash.push((entries[i].0.clone(), v));
                assert(view_entries(hash@) =~= so_far.push((entries@[i as int].0@, v@)));
            },
            Err(e) => {
                proof {
                    lemma_entries_failure(model, (i + 1) as nat, entries@.len(), old(env)@);
                }
                return Err(e);
            },
        }
        i = i + 1;
    }
    Ok(hash)
}

} // verus!
