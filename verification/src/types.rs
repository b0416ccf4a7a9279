//! The value model: the executable [`MalVal`] and its mathematical image
//! [`Value`].

use vstd::prelude::*;

verus! {

/// Handle of a built-in procedure. A handle is plain data: it names the
/// procedure and holds no code.
#[derive(Debug, Clone, Copy, PartialEq, Eq, Structural)]
pub enum Native {
    Add,
    Sub,
    Mul,
    Div,
}

/// The mathematical image of a [`MalVal`].
///
/// A hash is a sequence of entries rather than a map because the order of
/// the entries is observable: values are evaluated and printed in it.
pub ghost enum Value {
    Nil,
    Bool(bool),
    Str(Seq<char>),
    Keyword(Seq<char>),
    Int(int),
    Symbol(Seq<char>),
    List(Seq<Value>),
    Vector(Seq<Value>),
    Hash(Seq<(Seq<char>, Value)>),
    Func(Native),
}

/// No two entries have the same key.
pub open spec fn distinct_keys(entries: Seq<(Seq<char>, Value)>) -> bool {
    forall|i: int, j: int| 0 <= i < j < entries.len() ==> entries[i].0 != entries[j].0
}

impl Value {
    /// Every hash in the value, at any depth, has distinct keys.
    pub open spec fn well_formed(self) -> bool
        decreases self,
    {
        match self {
            Value::List(items) => forall|i: int| 0 <= i < items.len() ==> items[i].well_formed(),
            Value::Vector(items) => forall|i: int|
                0 <= i < items.len() ==> items[i].well_formed(),
            Value::Hash(entries) => distinct_keys(entries) && forall|i: int|
                0 <= i < entries.len() ==> entries[i].1.well_formed(),
            _ => true,
        }
    }

    /// The value nests no deeper than `depth` levels: what is no collection
    /// nests not at all, and a collection one level deeper than the deepest
    /// of its parts.
    pub open spec fn nests_within(self, depth: nat) -> bool
        decreases self,
    {
        match self {
            Value::List(items) => depth > 0 && forall|i: int|
                0 <= i < items.len() ==> items[i].nests_within((depth - 1) as nat),
            Value::Vector(items) => depth > 0 && forall|i: int|
                0 <= i < items.len() ==> items[i].nests_within((depth - 1) as nat),
            Value::Hash(entries) => depth > 0 && forall|i: int|
                0 <= i < entries.len() ==> entries[i].1.nests_within((depth - 1) as nat),
            _ => true,
        }
    }
}

/// A value of the language: data and code share this one representation.
#[derive(Debug, PartialEq)]
pub enum MalVal {
    Nil,
    Bool(bool),
    Str(String),
    /// The marker character, then the name.
    Keyword(String),
    Int(isize),
    Symbol(String),
    List(Vec<MalVal>),
    Vector(Vec<MalVal>),
    /// Entries in insertion order.
    Hash(Vec<(String, MalVal)>),
    Func(Native),
}

/// The images of a sequence of values, element by element.
pub open spec fn view_items(items: Seq<MalVal>) -> Seq<Value>
    decreases items,
{
    Seq::new(
        items.len(),
        |i: int|
            if 0 <= i < items.len() {
                items[i].view()
            } else {
                Value::Nil
            },
    )
}

/// The images of a sequence of hash entries, entry by entry.
pub open spec fn view_entries(entries: Seq<(String, MalVal)>) -> Seq<(Seq<char>, Value)>
    decreases entries,
{
    Seq::new(
        entries.len(),
        |i: int|
            if 0 <= i < entries.len() {
                (entries[i].0@, entries[i].1.view())
            } else {
                (Seq::empty(), Value::Nil)
            },
    )
}

impl View for MalVal {
    type V = Value;

    open spec fn view(&self) -> Value
        decreases self,
    {
        match self {
            MalVal::Nil => Value::Nil,
            MalVal::Bool(b) => Value::Bool(*b),
            MalVal::Str(s) => Value::Str(s@),
            MalVal::Keyword(s) => Value::Keyword(s@),
            MalVal::Int(i) => Value::Int(*i as int),
            MalVal::Symbol(s) => Value::Symbol(s@),
            MalVal::List(items) => Value::List(view_items(items@)),
            MalVal::Vector(items) => Value::Vector(view_items(items@)),
            MalVal::Hash(entries) => Value::Hash(view_entries(entries@)),
            MalVal::Func(f) => Value::Func(*f),
        }
    }
}

impl Clone for MalVal {
    /// A deep copy: the copy and the value have the same image.
    fn clone(&self) -> (r: Self)
        ensures
            r@ == self@,
        decreases self,
    {
        match self {
            MalVal::Nil => MalVal::Nil,
            MalVal::Bool(b) => MalVal::Bool(*b),
            MalVal::Str(s) => MalVal::Str(s.clone()),
            MalVal::Keyword(s) => MalVal::Keyword(s.clone()),
            MalVal::Int(i) => MalVal::Int(*i),
            MalVal::Symbol(s) => MalVal::Symbol(s.clone()),
            MalVal::List(items) => MalVal::List(clone_items(items)),
            MalVal::Vector(items) => MalVal::Vector(clone_items(items)),
            MalVal::Hash(entries) => MalVal::Hash(clone_entries(entries)),
            MalVal::Func(f) => MalVal::Func(*f),
        }
    }
}

/// Copies a vector of values, element by element.
fn clone_items(items: &Vec<MalVal>) -> (r: Vec<MalVal>)
    ensures
        view_items(r@) == view_items(items@),
    decreases items,
{
    let mut out: Vec<MalVal> = Vec::new();
    let mut i: usize = 0;
    while i < items.len()
        invariant
            i <= items.len(),
            out.len() == i,
            forall|j: int| 0 <= j < i ==> out@[j]@ == items@[j]@,
        decreases items.len() - i,
    {
        out.push(items[i].clone());
        i = i + 1;
    }
    assert(view_items(out@) =~= view_items(items@));
    out
}

/// Copies a vector of hash entries, entry by entry.
fn clone_entries(entries: &Vec<(String, MalVal)>) -> (r: Vec<(String, MalVal)>)
    ensures
        view_entries(r@) == view_entries(entries@),
    decreases entries,
{
    let mut out: Vec<(String, MalVal)> = Vec::new();
    let mut i: usize = 0;
    while i < entries.len()
        invariant
            i <= entries.len(),
            out.len() == i,
            forall|j: int|
                0 <= j < i ==> out@[j].0@ == entries@[j].0@ && out@[j].1@ == entries@[j].1@,
        decreases entries.len() - i,
    {
        out.push((entries[i].0.clone(), entries[i].1.clone()));
        i = i + 1;
    }
    assert(view_entries(out@) =~= view_entries(entries@));
    out
}

} // verus!
