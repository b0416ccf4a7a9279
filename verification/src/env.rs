//! The environment: a chain of scopes, each a mapping from names to
//! values, searched from the innermost scope outwards.
//!
//! A node owns the chain behind it. A scope is entered by making a node in
//! front of a chain, with [`Env::new`], and left by taking the chain back,
//! with [`Env::into_outer`]; while the inner node lives, it alone reaches
//! the scopes behind it.

use vstd::prelude::*;
use crate::error::{EnvError, EnvFault};
use crate::types::{MalVal, Value, view_items};

verus! {

/// One scope: the names it binds, each with its value.
pub type Scope = Map<Seq<char>, Value>;

/// The index of the innermost scope that binds `name`, counting the
/// innermost scope as 0.
pub open spec fn find_depth(scopes: Seq<Scope>, name: Seq<char>) -> Option<int>
    decreases scopes.len(),
{
    if scopes.len() == 0 {
        None
    } else if scopes[0].contains_key(name) {
        Some(0)
    } else {
        match find_depth(scopes.skip(1), name) {
            Some(d) => Some(d + 1),
            None => None,
        }
    }
}

/// The value of `name` in a chain of scopes: the one the innermost scope
/// that binds the name gives it.
pub open spec fn lookup(scopes: Seq<Scope>, name: Seq<char>) -> Option<Value> {
    match find_depth(scopes, name) {
        Some(d) => Some(scopes[d][name]),
        None => None,
    }
}

/// The chain after `name` is bound to `v` in the innermost scope. No other
/// scope changes.
pub open spec fn define(scopes: Seq<Scope>, name: Seq<char>, v: Value) -> Seq<Scope> {
    scopes.update(0, scopes[0].insert(name, v))
}

/// The scopes of an optional chain: none where there is no chain.
pub open spec fn scopes_of(outer: Option<Env>) -> Seq<Scope> {
    match outer {
        Some(o) => o@,
        None => Seq::empty(),
    }
}

/// The chain with a fresh empty scope in front.
pub open spec fn enter(scopes: Seq<Scope>) -> Seq<Scope> {
    seq![Map::empty()] + scopes
}

/// The names of a sequence of symbols, in order.
pub open spec fn symbol_names(items: Seq<Value>) -> Seq<Seq<char>> {
    Seq::new(items.len(), |i: int| items[i]->Symbol_0)
}

/// Every item is a symbol.
pub open spec fn all_symbols(items: Seq<Value>) -> bool {
    forall|i: int| 0 <= i < items.len() ==> items[i] is Symbol
}

/// The scope that binds the first `n` names to the first `n` values, one by
/// one. Where a name occurs twice, the later binding counts.
pub open spec fn zip_scope(names: Seq<Seq<char>>, values: Seq<Value>, n: nat) -> Scope
    decreases n,
{
    if n == 0 || n > names.len() || n > values.len() {
        Map::empty()
    } else {
        zip_scope(names, values, (n - 1) as nat).insert(names[n - 1], values[n - 1])
    }
}

/// The scope that binds the parameters `binds` to the arguments `args`.
///
/// `binds` has to be a list, of as many items as there are arguments, and
/// each item a symbol; the three conditions are tested in this order.
pub open spec fn bound_scope(binds: Value, args: Seq<Value>) -> Result<Scope, EnvFault> {
    match binds {
        Value::List(items) => if items.len() != args.len() {
            Err(EnvFault::ArityMismatch)
        } else if all_symbols(items) {
            Ok(zip_scope(symbol_names(items), args, items.len()))
        } else {
            Err(EnvFault::MalformedParameters)
        },
        _ => Err(EnvFault::MalformedParameters),
    }
}

/// What `find_depth` returns is the first scope that binds the name.
pub proof fn lemma_find_depth(scopes: Seq<Scope>, name: Seq<char>)
    ensures
        match find_depth(scopes, name) {
            Some(d) => 0 <= d < scopes.len() && scopes[d].contains_key(name) && forall|j: int|
                0 <= j < d ==> !scopes[j].contains_key(name),
            None => forall|j: int| 0 <= j < scopes.len() ==> !scopes[j].contains_key(name),
        },
    decreases scopes.len(),
{
    if scopes.len() > 0 && !scopes[0].contains_key(name) {
        let rest = scopes.skip(1);
        lemma_find_depth(rest, name);
        match find_depth(rest, name) {
            Some(d) => {
                assert forall|j: int| 0 <= j < d + 1 implies !scopes[j].contains_key(name) by {
                    if j > 0 {
                        assert(scopes[j] == rest[j - 1]);
                    }
                }
            },
            None => {
                assert forall|j: int| 0 <= j < scopes.len() implies !scopes[j].contains_key(
                    name,
                ) by {
                    if j > 0 {
                        assert(scopes[j] == rest[j - 1]);
                    }
                }
            },
        }
    }
}

/// Every value that the scope binds is well formed.
pub open spec fn well_formed_scope(scope: Scope) -> bool {
    forall|name: Seq<char>| scope.contains_key(name) ==> (#[trigger] scope[name]).well_formed()
}

/// Every value that a scope of the chain binds is well formed.
pub open spec fn well_formed_scopes(scopes: Seq<Scope>) -> bool {
    forall|j: int| 0 <= j < scopes.len() ==> well_formed_scope(#[trigger] scopes[j])
}

/// What is found in well-formed scopes is well formed.
pub proof fn lemma_lookup_well_formed(scopes: Seq<Scope>, name: Seq<char>)
    requires
        well_formed_scopes(scopes),
    ensures
        lookup(scopes, name) matches Some(v) ==> v.well_formed(),
{
    lemma_find_depth(scopes, name);
    if let Some(d) = find_depth(scopes, name) {
        assert(well_formed_scope(scopes[d]));
    }
}

/// Binding a name to a well-formed value keeps the scopes well formed.
pub proof fn lemma_define_well_formed(scopes: Seq<Scope>, name: Seq<char>, v: Value)
    requires
        scopes.len() >= 1,
        well_formed_scopes(scopes),
        v.well_formed(),
    ensures
        well_formed_scopes(define(scopes, name, v)),
{
    let after = define(scopes, name, v);
    assert forall|j: int| 0 <= j < after.len() implies well_formed_scope(
        #[trigger] after[j],
    ) by {
        assert(well_formed_scope(scopes[j]));
        if j == 0 {
            assert forall|other: Seq<char>| after[0].contains_key(other) implies (
            #[trigger] after[0][other]).well_formed() by {
                if other != name {
                    assert(scopes[0].contains_key(other));
                    assert(after[0][other] == scopes[0][other]);
                }
            }
        }
    }
}

/// A fresh scope keeps the scopes well formed.
pub proof fn lemma_enter_well_formed(scopes: Seq<Scope>)
    requires
        well_formed_scopes(scopes),
    ensures
        well_formed_scopes(enter(scopes)),
{
    let after = enter(scopes);
    assert forall|j: int| 0 <= j < after.len() implies well_formed_scope(
        #[trigger] after[j],
    ) by {
        if j > 0 {
            assert(after[j] == scopes[j - 1]);
        }
    }
}

/// A name is found in the innermost scope that binds it, whatever lies
/// before that scope binds other names only.
proof fn lemma_find_depth_is(scopes: Seq<Scope>, name: Seq<char>, d: int)
    requires
        0 <= d < scopes.len(),
        scopes[d].contains_key(name),
        forall|j: int| 0 <= j < d ==> !scopes[j].contains_key(name),
    ensures
        find_depth(scopes, name) == Some(d),
    decreases d,
{
    if d > 0 {
        let rest = scopes.skip(1);
        assert(rest[d - 1] == scopes[d]);
        assert forall|j: int| 0 <= j < d - 1 implies !rest[j].contains_key(name) by {
            assert(rest[j] == scopes[j + 1]);
        }
        lemma_find_depth_is(rest, name, d - 1);
    }
}

/// A name that no scope binds is not found.
pub proof fn lemma_lookup_unbound(scopes: Seq<Scope>, name: Seq<char>)
    requires
        forall|j: int| 0 <= j < scopes.len() ==> !scopes[j].contains_key(name),
    ensures
        lookup(scopes, name) is None,
{
    lemma_find_depth(scopes, name);
}

/// A name that was bound is found, with the value it was bound to,
/// whatever the scopes behind the innermost bind it to.
pub proof fn lemma_lookup_defined(scopes: Seq<Scope>, name: Seq<char>, v: Value)
    requires
        scopes.len() >= 1,
    ensures
        lookup(define(scopes, name, v), name) == Some(v),
{
}

/// Binding a name changes what no other name is bound to.
pub proof fn lemma_lookup_other(scopes: Seq<Scope>, name: Seq<char>, v: Value, other: Seq<char>)
    requires
        scopes.len() >= 1,
        other != name,
    ensures
        lookup(define(scopes, name, v), other) == lookup(scopes, other),
{
    let after = define(scopes, name, v);
    lemma_find_depth(scopes, other);
    match find_depth(scopes, other) {
        Some(d) => {
            assert forall|j: int| 0 <= j < d implies !after[j].contains_key(other) by {
                assert(!scopes[j].contains_key(other));
            }
            lemma_find_depth_is(after, other, d);
        },
        None => {
            assert forall|j: int| 0 <= j < after.len() implies !after[j].contains_key(other) by {
                assert(!scopes[j].contains_key(other));
            }
            lemma_lookup_unbound(after, other);
        },
    }
}

/// Binding a name rewrites no scope behind the innermost.
pub proof fn lemma_define_keeps_outer(scopes: Seq<Scope>, name: Seq<char>, v: Value)
    requires
        scopes.len() >= 1,
    ensures
        define(scopes, name, v).len() == scopes.len(),
        define(scopes, name, v).skip(1) == scopes.skip(1),
{
    assert(define(scopes, name, v).skip(1) =~= scopes.skip(1));
}

/// A fresh scope binds nothing: every name is worth in it what it is worth
/// in the chain behind it.
pub proof fn lemma_lookup_entered(scopes: Seq<Scope>, name: Seq<char>)
    ensures
        lookup(enter(scopes), name) == lookup(scopes, name),
        enter(scopes).skip(1) == scopes,
{
    assert(enter(scopes).skip(1) =~= scopes);
    lemma_find_depth(scopes, name);
    if let Some(d) = find_depth(scopes, name) {
        assert(enter(scopes)[d + 1] == scopes[d]);
    }
}

/// The mapping that a list of entries stands for. Where a name occurs
/// twice, the later entry counts.
spec fn bindings(entries: Seq<(String, MalVal)>) -> Scope
    decreases entries.len(),
{
    if entries.len() == 0 {
        Map::empty()
    } else {
        bindings(entries.drop_last()).insert(entries.last().0@, entries.last().1@)
    }
}

/// No two entries have the same name.
spec fn distinct_names(entries: Seq<(String, MalVal)>) -> bool {
    forall|i: int, j: int|
        0 <= i < entries.len() && 0 <= j < entries.len() && i != j ==> entries[i].0@
            != entries[j].0@
}

/// A name that no entry has is not bound.
proof fn lemma_bindings_absent(entries: Seq<(String, MalVal)>, name: Seq<char>)
    requires
        forall|i: int| 0 <= i < entries.len() ==> entries[i].0@ != name,
    ensures
        !bindings(entries).contains_key(name),
    decreases entries.len(),
{
    if entries.len() > 0 {
        lemma_bindings_absent(entries.drop_last(), name);
    }
}

/// The name of an entry is bound to the value of the entry.
proof fn lemma_bindings_present(entries: Seq<(String, MalVal)>, at: int)
    requires
        distinct_names(entries),
        0 <= at < entries.len(),
    ensures
        bindings(entries).contains_key(entries[at].0@),
        bindings(entries)[entries[at].0@] == entries[at].1@,
    decreases entries.len(),
{
    if at < entries.len() - 1 {
        lemma_bindings_present(entries.drop_last(), at);
    }
}

/// An entry put in the place of one of the same name binds the name anew,
/// and the names stay distinct.
proof fn lemma_bindings_replace(entries: Seq<(String, MalVal)>, at: int, entry: (String, MalVal))
    requires
        distinct_names(entries),
        0 <= at < entries.len(),
        entry.0@ == entries[at].0@,
    ensures
        distinct_names(entries.update(at, entry)),
        bindings(entries.update(at, entry)) == bindings(entries).insert(entry.0@, entry.1@),
    decreases entries.len(),
{
    let after = entries.update(at, entry);
    if at == entries.len() - 1 {
        assert(after.drop_last() == entries.drop_last());
        assert(bindings(after) =~= bindings(entries).insert(entry.0@, entry.1@));
    } else {
        lemma_bindings_replace(entries.drop_last(), at, entry);
        assert(after.drop_last() == entries.drop_last().update(at, entry));
        assert(bindings(after) =~= bindings(entries).insert(entry.0@, entry.1@));
    }
}

/// An environment: the innermost scope and, behind it, the chain it was
/// created in. No name occurs twice among the entries of a node.
#[derive(Debug)]
pub struct Env {
    data: Vec<(String, MalVal)>,
    outer: Option<Box<Env>>,
}

impl View for Env {
    type V = Seq<Scope>;

    /// The scopes of the chain, innermost first.
    closed spec fn view(&self) -> Seq<Scope> {
        self.scopes()
    }
}

impl Env {
    /// The scope of the node, then the scopes of the chain behind it.
    spec fn scopes(self) -> Seq<Scope>
        decreases self,
    {
        seq![bindings(self.data@)] + match self.outer {
            Some(outer) => outer.scopes(),
            None => Seq::empty(),
        }
    }

    /// No name occurs twice among the entries of the node.
    #[verifier::type_invariant]
    spec fn names_are_distinct(self) -> bool {
        distinct_names(self.data@)
    }

    /// A chain has at least the scope of its first node.
    pub proof fn lemma_has_a_scope(&self)
        ensures
            self@.len() >= 1,
    {
    }

    /// The first scope of the chain is what the entries of the node stand
    /// for; the rest is the chain behind the node.
    proof fn lemma_unfold(&self)
        ensures
            self@.len() >= 1,
            self@[0] == bindings(self.data@),
            match self.outer {
                Some(outer) => self@.skip(1) == outer@,
                None => self@.len() == 1,
            },
    {
        match self.outer {
            Some(outer) => {
                assert(self@.skip(1) =~= outer@);
            },
            None => {},
        }
    }

    /// A node with no binding, in front of the chain `outer` if there is
    /// one.
    pub fn new(outer: Option<Env>) -> (r: Env)
        ensures
            r@ == enter(scopes_of(outer)),
    {
        let outer = match outer {
            Some(o) => Some(Box::new(o)),
            None => None,
        };
        Env { data: Vec::new(), outer }
    }

    /// A node that binds the parameters `binds` to the arguments `exprs`,
    /// position by position, in front of the chain `outer` if there is one.
    ///
    /// Fails when `binds` is not a list of symbols, or when the number of
    /// arguments is not the number of parameters.
    pub fn new_with_bindings(outer: Option<Env>, binds: MalVal, exprs: Vec<MalVal>) -> (r: Result<
        Env,
        EnvError,
    >)
        ensures
            match bound_scope(binds@, view_items(exprs@)) {
                Ok(scope) => r matches Ok(env) && env@ == seq![scope] + scopes_of(outer),
                Err(fault) => r matches Err(e) && e@ == fault,
            },
    {
        let ghost behind = scopes_of(outer);
        let ghost form = binds@;
        let items = match binds {
            MalVal::List(items) => items,
            _ => {
                return Err(EnvError::MalformedParameters);
            },
        };
        if items.len() != exprs.len() {
            return Err(EnvError::ArityMismatch);
        }
        let ghost params = view_items(items@);
        let ghost args = view_items(exprs@);
        let mut env = Env::new(outer);
        let mut i: usize = 0;
        assert(env@ =~= seq![zip_scope(symbol_names(params), args, 0)] + behind);
        while i < items.len()
            invariant
                i <= items.len(),
                items.len() == exprs.len(),
                form == binds@,
                form == Value::List(params),
                params == view_items(items@),
                args == view_items(exprs@),
                forall|j: int| 0 <= j < i ==> params[j] is Symbol,
                env@ == seq![zip_scope(symbol_names(params), args, i as nat)] + behind,
            decreases items.len() - i,
        {
            match &items[i] {
                MalVal::Symbol(name) => {
                    env.insert(name.clone(), exprs[i].clone());
                },
                _ => {
                    assert(!(params[i as int] is Symbol));
                    return Err(EnvError::MalformedParameters);
                },
            }
            i = i + 1;
            assert(env@ =~= seq![zip_scope(symbol_names(params), args, i as nat)] + behind);
        }
        Ok(env)
    }

    /// The index of the entry of the innermost scope that is named `key`.
    fn position(&self, key: &String) -> (r: Option<usize>)
        ensures
            match r {
                Some(i) => i < self.data@.len() && self.data@[i as int].0@ == key@,
                None => forall|j: int| 0 <= j < self.data@.len() ==> self.data@[j].0@ != key@,
            },
    {
        let mut i: usize = 0;
        while i < self.data.len()
            invariant
                i <= self.data@.len(),
                forall|j: int| 0 <= j < i ==> self.data@[j].0@ != key@,
            decreases self.data@.len() - i,
        {
            if self.data[i].0 == *key {
                return Some(i);
            }
            i = i + 1;
        }
        None
    }

    /// Binds `key` to `val` in the innermost scope.
    fn insert(&mut self, key: String, val: MalVal)
        ensures
            final(self)@ == define(old(self)@, key@, val@),
    {
        proof {
            use_type_invariant(&*self);
        }
        let ghost before = self.data@;
        let at = self.position(&key);
        // The entries leave the node while they change, so that the node is
        // well formed at every call.
        let mut data: Vec<(String, MalVal)> = Vec::new();
        core::mem::swap(&mut self.data, &mut data);
        match at {
            Some(i) => {
                proof {
                    lemma_bindings_replace(before, i as int, (key, val));
                }
                data.set(i, (key, val));
            },
            None => {
                data.push((key, val));
                assert(data@.drop_last() == before);
            },
        }
        self.data = data;
        assert(self@ =~= define(old(self)@, key@, val@));
    }

    /// Binds `key` to `val` in the innermost scope, in place of what `key`
    /// was bound to there, and returns the value. No other scope changes.
    pub fn set(&mut self, key: String, val: MalVal) -> (r: MalVal)
        ensures
            final(self)@ == define(old(self)@, key@, val@),
            r@ == val@,
    {
        let stored = val.clone();
        self.insert(key, stored);
        val
    }

    /// The innermost node whose own scope binds `key`, with the chain
    /// behind it.
    pub fn find(&self, key: &str) -> (r: Option<&Env>)
        ensures
            match find_depth(self@, key@) {
                Some(d) => r matches Some(e) && e@ == self@.skip(d),
                None => r is None,
            },
        decreases self,
    {
        let name = String::from_str(key);
        proof {
            use_type_invariant(self);
            self.lemma_unfold();
        }
        match self.position(&name) {
            Some(i) => {
                proof {
                    lemma_bindings_present(self.data@, i as int);
                }
                assert(self@.skip(0) =~= self@);
                Some(self)
            },
            None => {
                proof {
                    lemma_bindings_absent(self.data@, key@);
                }
                match &self.outer {
                    Some(outer) => {
                        let r = outer.find(key);
                        proof {
                            if let Some(d) = find_depth(outer@, key@) {
                                lemma_find_depth(outer@, key@);
                                assert(outer@.skip(d) =~= self@.skip(d + 1));
                            }
                        }
                        r
                    },
                    None => {
                        assert(find_depth(self@.skip(1), key@) is None);
                        None
                    },
                }
            },
        }
    }

    /// The value of `key`: the one the innermost scope that binds it gives
    /// it. Fails when no scope of the chain binds `key`.
    pub fn get(&self, key: &str) -> (r: Result<MalVal, EnvError>)
        ensures
            match lookup(self@, key@) {
                Some(v) => r matches Ok(x) && x@ == v,
                None => r matches Err(e) && e@ == EnvFault::NotFound(key@),
            },
    {
        proof {
            lemma_find_depth(self@, key@);
        }
        match self.find(key) {
            Some(env) => {
                let name = String::from_str(key);
                proof {
                    use_type_invariant(env);
                    env.lemma_unfold();
                }
                match env.position(&name) {
                    Some(i) => {
                        proof {
                            lemma_bindings_present(env.data@, i as int);
                        }
                        Ok(env.data[i].1.clone())
                    },
                    None => {
                        proof {
                            lemma_bindings_absent(env.data@, key@);
                        }
                        assert(false);
                        Err(EnvError::NotFound(name))
                    },
                }
            },
            None => Err(EnvError::NotFound(String::from_str(key))),
        }
    }

    /// Gives up the innermost scope and returns the chain behind it.
    pub fn into_outer(self) -> (r: Option<Env>)
        ensures
            match r {
                Some(o) => self@.len() > 1 && o@ == self@.skip(1),
                None => self@.len() == 1,
            },
    {
        match self.outer {
            Some(o) => {
                assert(o@ =~= self@.skip(1));
                Some(*o)
            },
            None => None,
        }
    }
}

} // verus!
