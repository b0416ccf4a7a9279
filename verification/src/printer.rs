//! The printer: the one-line text of a value.

use vstd::prelude::*;
use crate::text::{chars_of, decimal_text, push_decimal, text_is, text_of};
use crate::types::{MalVal, Value, view_entries, view_items};

verus! {

/// The text of a symbol: a reader-macro character prints under the name of
/// the form it abbreviates, any other symbol as it is.
pub open spec fn symbol_text(name: Seq<char>) -> Seq<char> {
    if name == "'"@ {
        "quote"@
    } else if name == "`"@ {
        "quasiquote"@
    } else if name == "~"@ {
        "unquote"@
    } else if name == "~@"@ {
        "splice-unquote"@
    } else if name == "@"@ {
        "deref"@
    } else {
        name
    }
}

/// The text of a keyword: a colon in place of the marker it is stored with.
pub open spec fn keyword_text(stored: Seq<char>) -> Seq<char> {
    if stored.len() > 0 {
        seq![':'] + stored.skip(1)
    } else {
        seq![':']
    }
}

/// The text of a string: its characters between double quotes, as they
/// are.
pub open spec fn string_text(s: Seq<char>) -> Seq<char> {
    seq!['"'] + s + seq!['"']
}

/// The text of a value.
pub open spec fn print(v: Value) -> Seq<char>
    decreases v, 0nat,
{
    match v {
        Value::Nil => "nil"@,
        Value::Bool(b) => if b {
            "true"@
        } else {
            "false"@
        },
        Value::Str(s) => string_text(s),
        Value::Keyword(k) => keyword_text(k),
        Value::Int(n) => decimal_text(n),
        Value::Symbol(s) => symbol_text(s),
        Value::List(items) => seq!['('] + print_items(items, items.len()) + seq![')'],
        Value::Vector(items) => seq!['['] + print_items(items, items.len()) + seq![']'],
        Value::Hash(entries) => seq!['{'] + print_entries(entries, entries.len()) + seq!['}'],
        Value::Func(_) => "#<function>"@,
    }
}

/// The texts of the first `n` items, one space between neighbours.
pub open spec fn print_items(items: Seq<Value>, n: nat) -> Seq<char>
    decreases items, n,
{
    if n == 0 || n > items.len() {
        Seq::empty()
    } else if n == 1 {
        print(items[0])
    } else {
        print_items(items, (n - 1) as nat) + seq![' '] + print(items[n - 1])
    }
}

/// The text of a hash entry: the key as it is stored, a space, the text of
/// the value.
pub open spec fn print_entry(entry: (Seq<char>, Value)) -> Seq<char>
    decreases entry, 0nat,
{
    entry.0 + seq![' '] + print(entry.1)
}

/// The texts of the first `n` entries, one space between neighbours.
pub open spec fn print_entries(entries: Seq<(Seq<char>, Value)>, n: nat) -> Seq<char>
    decreases entries, n,
{
    if n == 0 || n > entries.len() {
        Seq::empty()
    } else if n == 1 {
        print_entry(entries[0])
    } else {
        print_entries(entries, (n - 1) as nat) + seq![' '] + print_entry(entries[n - 1])
    }
}

/// Appends the text of a symbol named `name` to `out`.
fn push_symbol(out: &mut String, name: &String)
    ensures
        final(out)@ == old(out)@ + symbol_text(name@),
{
    if text_is(name, "'") {
        out.append("quote");
    } else if text_is(name, "`") {
        out.append("quasiquote");
    } else if text_is(name, "~") {
        out.append("unquote");
    } else if text_is(name, "~@") {
        out.append("splice-unquote");
    } else if text_is(name, "@") {
        out.append("deref");
    } else {
        out.append(name.as_str());
    }
}

/// Appends the text of a keyword stored as `stored` to `out`.
fn push_keyword(out: &mut String, stored: &String)
    ensures
        final(out)@ == old(out)@ + keyword_text(stored@),
{
    let chars = chars_of(stored.as_str());
    out.push(':');
    if chars.len() > 0 {
        let name = text_of(&chars, 1, chars.len());
        out.append(name.as_str());
        assert(out@ =~= old(out)@ + keyword_text(stored@));
    } else {
        assert(out@ =~= old(out)@ + keyword_text(stored@));
    }
}

/// Appends the text of `v` to `out`.
fn push_value(out: &mut String, v: &MalVal)
    ensures
        final(out)@ == old(out)@ + print(v@),
    decreases v,
{
    match v {
        MalVal::Nil => {
            out.append("nil");
        },
        MalVal::Bool(b) => {
            if *b {
                out.append("true");
            } else {
                out.append("false");
            }
        },
        MalVal::Str(s) => {
            out.push('"');
            out.append(s.as_str());
            out.push('"');
            assert(out@ =~= old(out)@ + string_text(s@));
        },
        MalVal::Keyword(k) => {
            push_keyword(out, k);
        },
        MalVal::Int(n) => {
            push_decimal(out, *n);
        },
        MalVal::Symbol(s) => {
            push_symbol(out, s);
        },
        MalVal::List(items) => {
            out.push('(');
            push_items(out, items);
            out.push(')');
            assert(out@ =~= old(out)@ + print(v@));
        },
        MalVal::Vector(items) => {
            out.push('[');
            push_items(out, items);
            out.push(']');
            assert(out@ =~= old(out)@ + print(v@));
        },
        MalVal::Hash(entries) => {
            out.push('{');
            push_entries(out, entries);
            out.push('}');
            assert(out@ =~= old(out)@ + print(v@));
        },
        MalVal::Func(_) => {
            out.append("#<function>");
        },
    }
}

/// Appends the texts of `items`, one space between neighbours, to `out`.
fn push_items(out: &mut String, items: &Vec<MalVal>)
    ensures
        final(out)@ == old(out)@ + print_items(view_items(items@), items@.len()),
    decreases items,
{
    let ghost model = view_items(items@);
    let mut i: usize = 0;
    assert(out@ =~= old(out)@ + print_items(model, 0));
    while i < items.len()
        invariant
            i <= items.len(),
            model == view_items(items@),
            out@ == old(out)@ + print_items(model, i as nat),
        decreases items.len() - i,
    {
        if i > 0 {
            out.push(' ');
        }
        push_value(out, &items[i]);
        i = i + 1;
        assert(out@ =~= old(out)@ + print_items(model, i as nat));
    }
}

/// Appends the texts of `entries`, one space between neighbours, to `out`.
fn push_entries(out: &mut String, entries: &Vec<(String, MalVal)>)
    ensures
        final(out)@ == old(out)@ + print_entries(view_entries(entries@), entries@.len()),
    decreases entries,
{
    let ghost model = view_entries(entries@);
    let mut i: usize = 0;
    assert(out@ =~= old(out)@ + print_entries(model, 0));
    while i < entries.len()
        invariant
            i <= entries.len(),
            model == view_entries(entries@),
            out@ == old(out)@ + print_entries(model, i as nat),
        decreases entries.len() - i,
    {
        if i > 0 {
            out.push(' ');
        }
        out.append(entries[i].0.as_str());
        out.push(' ');
        push_value(out, &entries[i].1);
        assert(model[i as int] == (entries@[i as int].0@, entries@[i as int].1@));
        assert(print_entry(model[i as int]) == entries@[i as int].0@ + seq![' '] + print(
            entries@[i as int].1@,
        ));
        i = i + 1;
        assert(out@ =~= old(out)@ + print_entries(model, i as nat));
    }
}

impl MalVal {
    /// The one-line text of the value.
    pub fn to_string(&self) -> (r: String)
        ensures
            r@ == print(self@),
    {
        let mut out = String::new();
        push_value(&mut out, self);
        assert(out@ =~= print(self@));
        out
    }
}

} // verus!
