use mal::env::Env;
use mal::error::EnvError;
use mal::repl::create_env;
use mal::types::{MalVal, Native};

fn sym(name: &str) -> MalVal {
    MalVal::Symbol(name.into())
}

fn missing(name: &str) -> EnvError {
    EnvError::NotFound(name.into())
}

#[test]
fn new_env_binds_nothing() {
    let env = Env::new(None);
    assert_eq!(env.get("a"), Err(missing("a")));
    assert!(env.find("a").is_none());
    assert!(env.into_outer().is_none());
}

#[test]
fn set_returns_the_value_and_get_finds_it() {
    let mut env = Env::new(None);
    assert_eq!(env.set("a".into(), MalVal::Int(3)), MalVal::Int(3));
    assert_eq!(env.get("a"), Ok(MalVal::Int(3)));
    assert_eq!(env.get("b"), Err(missing("b")));
    assert_eq!(env.get(""), Err(missing("")));
}

#[test]
fn set_overwrites_and_leaves_other_names() {
    let mut env = Env::new(None);
    env.set("a".into(), MalVal::Int(1));
    env.set("b".into(), MalVal::Int(2));
    env.set("a".into(), MalVal::Str("x".into()));
    assert_eq!(env.get("a"), Ok(MalVal::Str("x".into())));
    assert_eq!(env.get("b"), Ok(MalVal::Int(2)));
}

#[test]
fn lookup_walks_outwards_and_inner_shadows_outer() {
    let mut global = Env::new(None);
    global.set("a".into(), MalVal::Int(1));
    global.set("b".into(), MalVal::Int(2));
    let mut middle = Env::new(Some(global));
    middle.set("b".into(), MalVal::Int(20));
    let mut inner = Env::new(Some(middle));
    inner.set("c".into(), MalVal::Int(300));
    assert_eq!(inner.get("a"), Ok(MalVal::Int(1)));
    assert_eq!(inner.get("b"), Ok(MalVal::Int(20)));
    assert_eq!(inner.get("c"), Ok(MalVal::Int(300)));
    assert_eq!(inner.get("d"), Err(missing("d")));
}

#[test]
fn find_returns_the_nearest_node_that_binds_the_name() {
    let mut global = Env::new(None);
    global.set("a".into(), MalVal::Int(1));
    let mut inner = Env::new(Some(global));
    inner.set("b".into(), MalVal::Int(2));
    let of_b = inner.find("b").unwrap();
    assert_eq!(of_b.get("b"), Ok(MalVal::Int(2)));
    assert_eq!(of_b.get("a"), Ok(MalVal::Int(1)));
    let of_a = inner.find("a").unwrap();
    assert_eq!(of_a.get("a"), Ok(MalVal::Int(1)));
    // The node found for `a` is the global one, which has no `b`.
    assert_eq!(of_a.get("b"), Err(missing("b")));
    assert!(inner.find("zz").is_none());
}

#[test]
fn set_never_rewrites_an_ancestor() {
    let mut global = Env::new(None);
    global.set("a".into(), MalVal::Int(1));
    let mut inner = Env::new(Some(global));
    inner.set("a".into(), MalVal::Int(2));
    inner.set("b".into(), MalVal::Int(3));
    assert_eq!(inner.get("a"), Ok(MalVal::Int(2)));
    let global = inner.into_outer().unwrap();
    assert_eq!(global.get("a"), Ok(MalVal::Int(1)));
    assert_eq!(global.get("b"), Err(missing("b")));
    assert!(global.into_outer().is_none());
}

#[test]
fn sibling_does_not_see_a_definition() {
    let mut one = Env::new(None);
    one.set("a".into(), MalVal::Int(3));
    let other = Env::new(None);
    assert_eq!(one.get("a"), Ok(MalVal::Int(3)));
    assert_eq!(other.get("a"), Err(missing("a")));
}

#[test]
fn new_with_bindings_binds_by_position() {
    let env = Env::new_with_bindings(
        None,
        MalVal::List(vec![sym("a"), sym("b")]),
        vec![MalVal::Int(1), MalVal::Int(2)],
    )
    .unwrap();
    assert_eq!(env.get("a"), Ok(MalVal::Int(1)));
    assert_eq!(env.get("b"), Ok(MalVal::Int(2)));
    assert_eq!(env.get("c"), Err(missing("c")));

    let mut outer = Env::new(None);
    outer.set("c".into(), MalVal::Int(9));
    let env = Env::new_with_bindings(
        Some(outer),
        MalVal::List(vec![sym("a"), sym("a")]),
        vec![MalVal::Int(1), MalVal::Int(2)],
    )
    .unwrap();
    // The later of two parameters of one name counts.
    assert_eq!(env.get("a"), Ok(MalVal::Int(2)));
    assert_eq!(env.get("c"), Ok(MalVal::Int(9)));

    let env = Env::new_with_bindings(None, MalVal::List(vec![]), vec![]).unwrap();
    assert_eq!(env.get("a"), Err(missing("a")));
}

#[test]
fn new_with_bindings_failures() {
    let r = Env::new_with_bindings(
        None,
        MalVal::List(vec![sym("a"), sym("b")]),
        vec![MalVal::Int(1)],
    );
    assert_eq!(r.unwrap_err(), EnvError::ArityMismatch);
    let r = Env::new_with_bindings(None, MalVal::List(vec![sym("a")]), vec![]);
    assert_eq!(r.unwrap_err(), EnvError::ArityMismatch);
    let r = Env::new_with_bindings(
        None,
        MalVal::List(vec![]),
        vec![MalVal::Int(1)],
    );
    assert_eq!(r.unwrap_err(), EnvError::ArityMismatch);
    let r = Env::new_with_bindings(
        None,
        MalVal::List(vec![sym("a"), MalVal::Int(7)]),
        vec![MalVal::Int(1), MalVal::Int(2)],
    );
    assert_eq!(r.unwrap_err(), EnvError::MalformedParameters);
    let r = Env::new_with_bindings(
        None,
        MalVal::Vector(vec![sym("a")]),
        vec![MalVal::Int(1)],
    );
    assert_eq!(r.unwrap_err(), EnvError::MalformedParameters);
    let r = Env::new_with_bindings(None, MalVal::Nil, vec![]);
    assert_eq!(r.unwrap_err(), EnvError::MalformedParameters);
    // The number of arguments is tested before the parameters are.
    let r = Env::new_with_bindings(
        None,
        MalVal::List(vec![MalVal::Int(7)]),
        vec![],
    );
    assert_eq!(r.unwrap_err(), EnvError::ArityMismatch);
}

#[test]
fn create_env_binds_the_four_operators() {
    let env = create_env();
    assert_eq!(env.get("+"), Ok(MalVal::Func(Native::Add)));
    assert_eq!(env.get("-"), Ok(MalVal::Func(Native::Sub)));
    assert_eq!(env.get("*"), Ok(MalVal::Func(Native::Mul)));
    assert_eq!(env.get("/"), Ok(MalVal::Func(Native::Div)));
    assert_eq!(env.get("%"), Err(missing("%")));
    assert!(env.into_outer().is_none());
}
