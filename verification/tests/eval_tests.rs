use mal::env::Env;
use mal::error::{EnvError, EvalError, MalError};
use mal::eval::{eval_ast, EVAL};
use mal::natives::apply;
use mal::repl::{create_env, rep, PRINT, READ};
use mal::types::{MalVal, Native};

fn sym(name: &str) -> MalVal {
    MalVal::Symbol(name.into())
}

fn list(items: Vec<MalVal>) -> MalVal {
    MalVal::List(items)
}

fn num(n: isize) -> MalVal {
    MalVal::Int(n)
}

fn not_found(name: &str) -> MalError {
    MalError::Env(EnvError::NotFound(name.into()))
}

fn eval_error(e: EvalError) -> MalError {
    MalError::Eval(e)
}

#[test]
fn step2_eval_integration() {
    assert_eq!(
        READ("(+ 1 2)".into()).unwrap(),
        MalVal::List(vec![
            MalVal::Symbol("+".into()),
            MalVal::Int(1),
            MalVal::Int(2)
        ])
    );
}

#[test]
fn step2_eval_unterminated_quotes() {
    let test = READ("\"abc".into());
    assert!(test.is_err());
    assert!(test.unwrap_err().to_string().contains("EOF"));
}

#[test]
fn step2_eval_backslash() {
    assert_eq!(READ("\"\\\\\"".into()).unwrap(), MalVal::Str("\\\\".into()));
}

#[test]
fn step2_eval_quote_plus_one() {
    assert_eq!(
        READ("'1".into()).unwrap(),
        MalVal::List(vec!(MalVal::Symbol("'".into()), MalVal::Int(1)))
    );
}

#[test]
fn step2_eval_presendence() {
    let s = "(- (+ 5 (* 2 3)) 3)".into();
    assert_eq!(rep(s, &mut create_env()).unwrap(), "8");
}

#[test]
fn step3_env_integration() {
    assert_eq!(
        READ("(+ 1 2)".into()).unwrap(),
        MalVal::List(vec![
            MalVal::Symbol("+".into()),
            MalVal::Int(1),
            MalVal::Int(2)
        ])
    );
}

#[test]
fn step3_env_unterminated_quotes() {
    let test = READ("\"abc".into());
    assert!(test.is_err());
    assert!(test.unwrap_err().to_string().contains("EOF"));
}

#[test]
fn step3_env_backslash() {
    assert_eq!(READ("\"\\\\\"".into()).unwrap(), MalVal::Str("\\\\".into()));
}

#[test]
fn step3_env_quote_plus_one() {
    assert_eq!(
        READ("'1".into()).unwrap(),
        MalVal::List(vec!(MalVal::Symbol("'".into()), MalVal::Int(1)))
    );
}

#[test]
fn step3_env_presendence() {
    let s = "(- (+ 5 (* 2 3)) 3)".into();
    assert_eq!(rep(s, &mut create_env()).unwrap(), "8");
}

#[test]
fn variable() {
    // A token of letters alone reads as a string, not as a symbol.
    let s = "a";
    assert_eq!(READ(s.into()).unwrap(), MalVal::Str("a".into()));
}

#[test]
fn quote_form_prints_under_its_name() {
    assert_eq!(PRINT(READ("'1".into()).unwrap()), "(quote 1)");
}

#[test]
fn read_then_print_gives_the_text_back() {
    for text in [
        "(+ 1 2)",
        "[1 2 3]",
        "{:a 1 :b 2}",
        "{\"a\" (+ 7 8)}",
        "(x1 -5 \"s t\" :k nil true false)",
        "()",
        "[]",
        "{}",
        "((1) [2 {:a (3)}])",
    ] {
        assert_eq!(PRINT(READ(text.into()).unwrap()), text);
    }
    // Spaces and commas between forms are not kept.
    assert_eq!(PRINT(READ(" ( +   1,2 ) ".into()).unwrap()), "(+ 1 2)");
}

#[test]
fn data_evaluates_to_itself_and_prints_as_read() {
    let mut env = create_env();
    for text in ["7", "-7", "\"abc\"", ":kw", "nil", "true", "false", "()", "[1 2]", "{:a 1}"] {
        assert_eq!(rep(text.into(), &mut env).unwrap(), text);
    }
    assert_eq!(rep("abc".into(), &mut env).unwrap(), "\"abc\"");
}

#[test]
fn arithmetic() {
    let mut env = create_env();
    assert_eq!(rep("(+ 1 2)".into(), &mut env).unwrap(), "3");
    assert_eq!(rep("(- 5 7)".into(), &mut env).unwrap(), "-2");
    assert_eq!(rep("(* 4 -3)".into(), &mut env).unwrap(), "-12");
    assert_eq!(rep("(/ 7 2)".into(), &mut env).unwrap(), "3");
    assert_eq!(rep("(/ -7 2)".into(), &mut env).unwrap(), "-3");
    assert_eq!(rep("(/ 7 -2)".into(), &mut env).unwrap(), "-3");
    assert_eq!(rep("(/ -7 -2)".into(), &mut env).unwrap(), "3");
    assert_eq!(rep("(+ 1 2 3 4)".into(), &mut env).unwrap(), "10");
    assert_eq!(rep("(- 10 1 2 3)".into(), &mut env).unwrap(), "4");
    assert_eq!(rep("(/ 100 5 2)".into(), &mut env).unwrap(), "10");
    assert_eq!(rep("(- (+ 5 (* 2 3)) 3)".into(), &mut env).unwrap(), "8");
}

#[test]
fn native_with_one_argument_returns_it() {
    for f in [Native::Add, Native::Sub, Native::Mul, Native::Div] {
        assert_eq!(apply(f, &vec![num(5)]), Ok(num(5)));
        assert_eq!(apply(f, &vec![num(-5)]), Ok(num(-5)));
        assert_eq!(apply(f, &vec![num(0)]), Ok(num(0)));
        assert_eq!(apply(f, &vec![num(isize::MIN)]), Ok(num(isize::MIN)));
    }
    let mut env = create_env();
    assert_eq!(rep("(- 5)".into(), &mut env).unwrap(), "5");
    assert_eq!(rep("(/ 5)".into(), &mut env).unwrap(), "5");
}

#[test]
fn native_with_no_argument_fails() {
    for f in [Native::Add, Native::Sub, Native::Mul, Native::Div] {
        assert_eq!(apply(f, &vec![]), Err(EvalError::NoArguments));
    }
    let mut env = create_env();
    assert_eq!(
        rep("(+)".into(), &mut env),
        Err(eval_error(EvalError::NoArguments))
    );
}

#[test]
fn native_failures() {
    assert_eq!(
        apply(Native::Add, &vec![num(1), MalVal::Nil]),
        Err(EvalError::NotAnInteger)
    );
    assert_eq!(
        apply(Native::Add, &vec![MalVal::Str("1".into())]),
        Err(EvalError::NotAnInteger)
    );
    assert_eq!(
        apply(Native::Div, &vec![num(1), num(0)]),
        Err(EvalError::DivisionByZero)
    );
    assert_eq!(
        apply(Native::Add, &vec![num(isize::MAX), num(1)]),
        Err(EvalError::Overflow)
    );
    assert_eq!(
        apply(Native::Sub, &vec![num(isize::MIN), num(1)]),
        Err(EvalError::Overflow)
    );
    assert_eq!(
        apply(Native::Mul, &vec![num(isize::MAX), num(2)]),
        Err(EvalError::Overflow)
    );
    assert_eq!(
        apply(Native::Div, &vec![num(isize::MIN), num(-1)]),
        Err(EvalError::Overflow)
    );
    // The first failure from the left is the one reported.
    assert_eq!(
        apply(Native::Div, &vec![num(1), num(0), MalVal::Nil]),
        Err(EvalError::DivisionByZero)
    );
    assert_eq!(
        apply(Native::Div, &vec![num(1), MalVal::Nil, num(0)]),
        Err(EvalError::NotAnInteger)
    );
    assert_eq!(
        apply(Native::Add, &vec![num(isize::MAX), num(1), num(-1)]),
        Err(EvalError::Overflow)
    );
}

#[test]
fn def_then_lookup() {
    let mut env = create_env();
    let form = list(vec![sym("def!"), sym("a"), num(3)]);
    assert_eq!(EVAL(form, &mut env), Ok(num(3)));
    assert_eq!(EVAL(sym("a"), &mut env), Ok(num(3)));
    assert_eq!(env.get("a"), Ok(num(3)));
    // Another environment knows nothing of the definition.
    let mut sibling = create_env();
    assert_eq!(EVAL(sym("a"), &mut sibling), Err(not_found("a")));
}

#[test]
fn def_from_text() {
    let mut env = create_env();
    assert_eq!(rep("(def! a1 3)".into(), &mut env).unwrap(), "3");
    assert_eq!(rep("a1".into(), &mut env).unwrap(), "3");
    assert_eq!(rep("(def! a1 (+ a1 1))".into(), &mut env).unwrap(), "4");
    assert_eq!(rep("(+ a1 a1)".into(), &mut env).unwrap(), "8");
    let mut sibling = create_env();
    assert_eq!(rep("a1".into(), &mut sibling), Err(not_found("a1")));
    assert_eq!(
        rep("a1".into(), &mut sibling).unwrap_err().to_string(),
        "a1 not found"
    );
}

#[test]
fn def_of_a_name_of_letters_read_from_text_is_malformed() {
    // Read from text, `a` is a string, and a string names no variable.
    let mut env = create_env();
    assert_eq!(
        rep("(def! a 3)".into(), &mut env),
        Err(eval_error(EvalError::MalformedSpecialForm))
    );
}

#[test]
fn def_binds_in_the_current_scope_only() {
    let mut outer = create_env();
    let mut inner = Env::new(Some(outer));
    assert_eq!(
        EVAL(list(vec![sym("def!"), sym("x"), num(1)]), &mut inner),
        Ok(num(1))
    );
    assert_eq!(inner.get("x"), Ok(num(1)));
    outer = inner.into_outer().unwrap();
    assert_eq!(outer.get("x"), Err(EnvError::NotFound("x".into())));
}

#[test]
fn def_keeps_nothing_when_its_value_fails() {
    let mut env = create_env();
    let form = list(vec![sym("def!"), sym("x"), sym("missing")]);
    assert_eq!(EVAL(form, &mut env), Err(not_found("missing")));
    assert_eq!(env.get("x"), Err(EnvError::NotFound("x".into())));
}

#[test]
fn malformed_def() {
    let mut env = create_env();
    let malformed = Err(eval_error(EvalError::MalformedSpecialForm));
    assert_eq!(EVAL(list(vec![sym("def!")]), &mut env), malformed);
    assert_eq!(EVAL(list(vec![sym("def!"), sym("x")]), &mut env), malformed);
    assert_eq!(
        EVAL(list(vec![sym("def!"), num(1), num(2)]), &mut env),
        malformed
    );
    // A malformed form evaluates nothing.
    assert_eq!(
        EVAL(
            list(vec![
                sym("def!"),
                num(1),
                list(vec![sym("def!"), sym("y"), num(2)])
            ]),
            &mut env
        ),
        malformed
    );
    assert_eq!(env.get("y"), Err(EnvError::NotFound("y".into())));
    // What follows the third item is ignored.
    assert_eq!(
        EVAL(list(vec![sym("def!"), sym("x"), num(1), sym("missing")]), &mut env),
        Ok(num(1))
    );
}

#[test]
fn let_scoping() {
    let mut env = create_env();
    let form = list(vec![
        sym("let*"),
        list(vec![
            sym("a"),
            num(1),
            sym("b"),
            list(vec![sym("+"), sym("a"), num(1)]),
        ]),
        list(vec![sym("+"), sym("a"), sym("b")]),
    ]);
    assert_eq!(EVAL(form, &mut env), Ok(num(3)));
    assert_eq!(EVAL(sym("a"), &mut env), Err(not_found("a")));
    assert_eq!(EVAL(sym("b"), &mut env), Err(not_found("b")));
    assert_eq!(env.get("a"), Err(EnvError::NotFound("a".into())));
}

#[test]
fn let_from_text() {
    let mut env = create_env();
    assert_eq!(
        rep("(let* (a1 1 b1 (+ a1 1)) (+ a1 b1))".into(), &mut env).unwrap(),
        "3"
    );
    assert_eq!(rep("a1".into(), &mut env), Err(not_found("a1")));
    assert_eq!(
        rep("(let* [a1 1 b1 (+ a1 1)] (+ a1 b1))".into(), &mut env).unwrap(),
        "3"
    );
    assert_eq!(rep("(let* () 5)".into(), &mut env).unwrap(), "5");
}

#[test]
fn let_sees_and_shadows_the_outer_scope() {
    let mut env = create_env();
    assert_eq!(rep("(def! x1 10)".into(), &mut env).unwrap(), "10");
    assert_eq!(rep("(let* (y1 (+ x1 1)) y1)".into(), &mut env).unwrap(), "11");
    assert_eq!(rep("(let* (x1 1) x1)".into(), &mut env).unwrap(), "1");
    assert_eq!(rep("x1".into(), &mut env).unwrap(), "10");
    assert_eq!(
        rep("(let* (x1 1) (let* (x1 2 y1 x1) (+ x1 y1)))".into(), &mut env).unwrap(),
        "4"
    );
    // A definition inside the body stays inside.
    assert_eq!(rep("(let* (z1 1) (def! w1 z1))".into(), &mut env).unwrap(), "1");
    assert_eq!(rep("w1".into(), &mut env), Err(not_found("w1")));
    assert_eq!(rep("x1".into(), &mut env).unwrap(), "10");
}

#[test]
fn let_binding_cannot_see_a_later_name() {
    let mut env = create_env();
    assert_eq!(
        rep("(let* (a1 b1 b1 1) a1)".into(), &mut env),
        Err(not_found("b1"))
    );
    // The environment is as it was after the failure.
    assert_eq!(rep("(+ 1 1)".into(), &mut env).unwrap(), "2");
    assert_eq!(rep("a1".into(), &mut env), Err(not_found("a1")));
    assert_eq!(
        rep("(let* (a1 1) missing1)".into(), &mut env),
        Err(not_found("missing1"))
    );
    assert_eq!(rep("(+ 1 1)".into(), &mut env).unwrap(), "2");
}

#[test]
fn malformed_let() {
    let mut env = create_env();
    let malformed = Err(eval_error(EvalError::MalformedSpecialForm));
    assert_eq!(rep("(let*)".into(), &mut env), malformed);
    assert_eq!(rep("(let* (a1 1))".into(), &mut env), malformed);
    assert_eq!(rep("(let* 1 2)".into(), &mut env), malformed);
    assert_eq!(rep("(let* (a1) a1)".into(), &mut env), malformed);
    assert_eq!(rep("(let* (1 2) 3)".into(), &mut env), malformed);
    assert_eq!(rep("(let* (a 1) a)".into(), &mut env), malformed);
    assert_eq!(rep("(let* (a1 1 2 3) a1)".into(), &mut env), malformed);
    assert_eq!(rep("(let* (a1 1 b1) a1)".into(), &mut env), malformed);
    // The environment is as it was after each failure.
    assert_eq!(rep("a1".into(), &mut env), Err(not_found("a1")));
    assert_eq!(rep("(+ 1 1)".into(), &mut env).unwrap(), "2");
}

#[test]
fn let_fails_at_the_first_pair_that_is_wrong() {
    let mut env = create_env();
    // A pair is looked at when its turn comes: the failure of an earlier
    // form is met before the wrong shape of a later pair, or a missing body.
    assert_eq!(
        rep("(let* (a1 missing1 2 3) a1)".into(), &mut env),
        Err(not_found("missing1"))
    );
    assert_eq!(
        rep("(let* (a1 missing1))".into(), &mut env),
        Err(not_found("missing1"))
    );
    assert_eq!(
        rep("(let* (a1 1 2 missing1) a1)".into(), &mut env),
        Err(eval_error(EvalError::MalformedSpecialForm))
    );
    assert_eq!(
        rep("(let* (a1 (1 2) b1) a1)".into(), &mut env),
        Err(eval_error(EvalError::NotCallable))
    );
    assert_eq!(rep("(+ 1 1)".into(), &mut env).unwrap(), "2");
}

#[test]
fn application() {
    let mut env = create_env();
    assert_eq!(
        rep("(1 2)".into(), &mut env),
        Err(eval_error(EvalError::NotCallable))
    );
    assert_eq!(
        rep("(\"f\" 2)".into(), &mut env),
        Err(eval_error(EvalError::NotCallable))
    );
    assert_eq!(
        rep("(abc 2)".into(), &mut env),
        Err(eval_error(EvalError::NotCallable))
    );
    assert_eq!(
        rep("((+ 1 2) 3)".into(), &mut env),
        Err(eval_error(EvalError::NotCallable))
    );
    assert_eq!(rep("(f1 2)".into(), &mut env), Err(not_found("f1")));
    // A procedure is a value like any other.
    assert_eq!(rep("(def! plus +)".into(), &mut env), Err(eval_error(EvalError::MalformedSpecialForm)));
    assert_eq!(rep("(def! p1 +)".into(), &mut env).unwrap(), "#<function>");
    assert_eq!(rep("(p1 2 3)".into(), &mut env).unwrap(), "5");
    assert_eq!(rep("((let* (q1 *) q1) 2 3)".into(), &mut env).unwrap(), "6");
}

#[test]
fn items_are_evaluated_from_left_to_right() {
    let mut env = create_env();
    assert_eq!(rep("[(def! x1 1) (+ x1 1)]".into(), &mut env).unwrap(), "[1 2]");
    assert_eq!(rep("(+ (def! y1 5) y1)".into(), &mut env).unwrap(), "10");
    assert_eq!(
        rep("{:a (def! z1 2) :b (* z1 z1)}".into(), &mut env).unwrap(),
        "{:a 2 :b 4}"
    );
    // The first failure ends the evaluation; what was bound before it stays.
    assert_eq!(
        rep("[(def! u1 1) missing1 (def! v1 2)]".into(), &mut env),
        Err(not_found("missing1"))
    );
    assert_eq!(rep("u1".into(), &mut env).unwrap(), "1");
    assert_eq!(rep("v1".into(), &mut env), Err(not_found("v1")));
}

#[test]
fn hash_keys_are_not_evaluated() {
    let mut env = create_env();
    assert_eq!(
        rep("{\"a\" (+ 7 8)}".into(), &mut env).unwrap(),
        "{\"a\" 15}"
    );
    assert_eq!(rep("{:a (+ 7 8)}".into(), &mut env).unwrap(), "{:a 15}");
}

#[test]
fn eval_ast_evaluates_the_parts() {
    let mut env = create_env();
    assert_eq!(
        eval_ast(list(vec![sym("+"), num(1), list(vec![sym("+"), num(1), num(1)])]), &mut env),
        Ok(list(vec![MalVal::Func(Native::Add), num(1), num(2)]))
    );
    assert_eq!(eval_ast(sym("*"), &mut env), Ok(MalVal::Func(Native::Mul)));
    assert_eq!(eval_ast(sym("nope"), &mut env), Err(not_found("nope")));
    assert_eq!(eval_ast(num(4), &mut env), Ok(num(4)));
    // Part by part, a special form is no special form.
    assert_eq!(
        eval_ast(list(vec![sym("def!"), num(1)]), &mut env),
        Err(not_found("def!"))
    );
}

#[test]
fn rep_reports_each_stage() {
    let mut env = create_env();
    assert_eq!(rep("\"abc".into(), &mut env).unwrap_err().to_string(), "EOF inside a string");
    assert_eq!(rep("(1".into(), &mut env).unwrap_err().to_string(), "EOF");
    assert_eq!(
        rep(")".into(), &mut env).unwrap_err().to_string(),
        "unexpected closing bracket"
    );
    assert_eq!(
        rep("{1}".into(), &mut env).unwrap_err().to_string(),
        "malformed map literal"
    );
    assert_eq!(rep("x1".into(), &mut env).unwrap_err().to_string(), "x1 not found");
    assert_eq!(rep("(1)".into(), &mut env).unwrap_err().to_string(), "not callable");
    assert_eq!(
        rep("(def!)".into(), &mut env).unwrap_err().to_string(),
        "malformed special form"
    );
    assert_eq!(rep("(+)".into(), &mut env).unwrap_err().to_string(), "no arguments");
    assert_eq!(rep("(+ nil)".into(), &mut env).unwrap_err().to_string(), "not an integer");
    assert_eq!(rep("(/ 1 0)".into(), &mut env).unwrap_err().to_string(), "division by zero");
    assert_eq!(
        rep("(* 9223372036854775807 2)".into(), &mut env).unwrap_err().to_string(),
        "integer overflow"
    );
    assert_eq!(
        MalError::Env(EnvError::ArityMismatch).to_string(),
        "wrong number of arguments"
    );
    assert_eq!(
        MalError::Env(EnvError::MalformedParameters).to_string(),
        "malformed parameter list"
    );
}

#[test]
fn deepest_text_is_read_evaluated_and_printed() {
    let mut env = create_env();
    let levels = mal::reader::MAX_DEPTH;
    let vectors = format!("{}{}", "[".repeat(levels), "]".repeat(levels));
    assert_eq!(rep(vectors.clone(), &mut env).unwrap(), vectors);
    // (+ 1 (+ 1 (+ 1 ... 1))) with as many sums as there are levels.
    let sums = format!("{}1{}", "(+ 1 ".repeat(levels), ")".repeat(levels));
    assert_eq!(
        rep(sums, &mut env).unwrap(),
        (levels + 1).to_string()
    );
    // The binding list of the innermost form is one level deeper than the
    // form.
    let lets = format!(
        "{}x1{}",
        "(let* (x1 1) ".repeat(levels - 1),
        ")".repeat(levels - 1)
    );
    assert_eq!(rep(lets, &mut env).unwrap(), "1");
    assert_eq!(
        rep("(".repeat(levels + 1), &mut env),
        Err(MalError::Reader(mal::error::ReaderError::RecursionLimitExceeded))
    );
    assert_eq!(rep("(+ 1 1)".into(), &mut env).unwrap(), "2");
}
