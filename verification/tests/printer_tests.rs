use mal::repl::PRINT;
use mal::types::{MalVal, Native};

fn sym(name: &str) -> MalVal {
    MalVal::Symbol(name.into())
}

#[test]
fn print_integers() {
    assert_eq!(MalVal::Int(0).to_string(), "0");
    assert_eq!(MalVal::Int(7).to_string(), "7");
    assert_eq!(MalVal::Int(10).to_string(), "10");
    assert_eq!(MalVal::Int(-12).to_string(), "-12");
    assert_eq!(MalVal::Int(1234567890).to_string(), "1234567890");
    assert_eq!(MalVal::Int(isize::MAX).to_string(), isize::MAX.to_string());
    assert_eq!(MalVal::Int(isize::MIN).to_string(), isize::MIN.to_string());
}

#[test]
fn print_atoms() {
    assert_eq!(MalVal::Nil.to_string(), "nil");
    assert_eq!(MalVal::Bool(true).to_string(), "true");
    assert_eq!(MalVal::Bool(false).to_string(), "false");
    assert_eq!(MalVal::Str("abc".into()).to_string(), "\"abc\"");
    assert_eq!(MalVal::Str("".into()).to_string(), "\"\"");
    // The characters of a string print as they are.
    assert_eq!(MalVal::Str("a\\\"b".into()).to_string(), "\"a\\\"b\"");
    assert_eq!(MalVal::Str("a\"b\nc".into()).to_string(), "\"a\"b\nc\"");
    assert_eq!(MalVal::Func(Native::Add).to_string(), "#<function>");
}

#[test]
fn print_keywords_with_their_colon() {
    assert_eq!(MalVal::Keyword("\u{29e}kw".into()).to_string(), ":kw");
    assert_eq!(MalVal::Keyword("\u{29e}".into()).to_string(), ":");
    assert_eq!(MalVal::Keyword("".into()).to_string(), ":");
}

#[test]
fn print_symbols() {
    assert_eq!(sym("abc").to_string(), "abc");
    assert_eq!(sym("+").to_string(), "+");
    assert_eq!(sym("'").to_string(), "quote");
    assert_eq!(sym("`").to_string(), "quasiquote");
    assert_eq!(sym("~").to_string(), "unquote");
    assert_eq!(sym("~@").to_string(), "splice-unquote");
    assert_eq!(sym("@").to_string(), "deref");
    assert_eq!(sym("@~").to_string(), "@~");
    assert_eq!(sym("^").to_string(), "^");
}

#[test]
fn print_sequences() {
    assert_eq!(MalVal::List(vec![]).to_string(), "()");
    assert_eq!(MalVal::Vector(vec![]).to_string(), "[]");
    assert_eq!(MalVal::Hash(vec![]).to_string(), "{}");
    assert_eq!(MalVal::List(vec![MalVal::Int(1)]).to_string(), "(1)");
    assert_eq!(
        MalVal::List(vec![sym("+"), MalVal::Int(1), MalVal::Int(2)]).to_string(),
        "(+ 1 2)"
    );
    assert_eq!(
        MalVal::Vector(vec![
            MalVal::Int(1),
            MalVal::List(vec![MalVal::Nil, MalVal::Vector(vec![])]),
            MalVal::Str("x".into()),
        ])
        .to_string(),
        "[1 (nil []) \"x\"]"
    );
    assert_eq!(
        MalVal::Hash(vec![
            (":a".to_string(), MalVal::Int(1)),
            ("\"b\"".to_string(), MalVal::List(vec![MalVal::Int(2)])),
        ])
        .to_string(),
        "{:a 1 \"b\" (2)}"
    );
}

#[test]
fn print_is_what_to_string_gives() {
    assert_eq!(
        PRINT(MalVal::List(vec![sym("'"), MalVal::Int(1)])),
        "(quote 1)"
    );
}

#[test]
fn clone_is_a_deep_copy() {
    let v = MalVal::List(vec![
        MalVal::Int(1),
        MalVal::Hash(vec![(":a".to_string(), MalVal::Vector(vec![sym("x")]))]),
        MalVal::Keyword("\u{29e}k".into()),
        MalVal::Func(Native::Div),
    ]);
    assert_eq!(v.clone(), v);
}
