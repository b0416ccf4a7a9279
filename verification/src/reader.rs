//! The reader: a recursive-descent parser from tokens to one value.

use vstd::prelude::*;
use crate::error::{agrees, Fault, MalError, ReaderError};
use crate::printer::print;
use crate::text::{
    chars_of, decimal_text, isize_of_text, lemma_decimal_round_trip, parse_int, text_is, text_of,
};
use crate::trusted::char_is_alphabetic;
use crate::tokenizer::{texts, tokenize, tokens_of};
use crate::types::{MalVal, Value, view_entries, view_items};

verus! {

/// The character that marks a stored keyword.
pub const KEYWORD_MARKER: char = '\u{29e}';

/// How deep sequences and reader macros may nest in a text that is read.
pub const MAX_DEPTH: usize = 256;

/// A token that abbreviates a form of two elements: the token as a symbol,
/// then the form that follows it.
pub open spec fn is_reader_macro(tok: Seq<char>) -> bool {
    tok == "'"@ || tok == "`"@ || tok == "~"@ || tok == "~@"@ || tok == "@"@
}

/// A token that closes a sequence.
pub open spec fn is_close(tok: Seq<char>) -> bool {
    tok == seq![')'] || tok == seq![']'] || tok == seq!['}']
}

/// The character that closes the sequence that `tok` opens, where it opens
/// one: a token opens a sequence by its first character.
pub open spec fn closer(tok: Seq<char>) -> Option<char> {
    if tok.len() == 0 {
        None
    } else if tok[0] == '(' {
        Some(')')
    } else if tok[0] == '[' {
        Some(']')
    } else if tok[0] == '{' {
        Some('}')
    } else {
        None
    }
}

/// Every character of `s` is alphabetic.
pub open spec fn all_alphabetic(s: Seq<char>) -> bool {
    forall|i: int| 0 <= i < s.len() ==> char_is_alphabetic(s[i])
}

/// A string token without its first and its last character, the quotes.
pub open spec fn unquoted(tok: Seq<char>) -> Seq<char> {
    if tok.len() >= 2 {
        tok.subrange(1, tok.len() - 1)
    } else {
        Seq::empty()
    }
}

/// The value of a token that stands for itself, by the first rule that
/// applies: a decimal integer that the integer type holds; a string, by
/// its opening quote; a keyword, by its colon; `nil`, `true`, `false`; a
/// string again where every character is alphabetic; else a symbol.
pub open spec fn atom_of(tok: Seq<char>) -> Value {
    if let Some(n) = isize_of_text(tok) {
        Value::Int(n as int)
    } else if tok.len() > 0 && tok[0] == '"' {
        Value::Str(unquoted(tok))
    } else if tok.len() > 0 && tok[0] == ':' {
        Value::Keyword(seq![KEYWORD_MARKER] + tok.skip(1))
    } else if tok == "nil"@ {
        Value::Nil
    } else if tok == "true"@ {
        Value::Bool(true)
    } else if tok == "false"@ {
        Value::Bool(false)
    } else if all_alphabetic(tok) {
        Value::Str(tok)
    } else {
        Value::Symbol(tok)
    }
}

/// The index of the first of the first `n` entries that has the key `key`.
pub open spec fn key_index(entries: Seq<(Seq<char>, Value)>, key: Seq<char>, n: nat) -> Option<
    int,
>
    decreases n,
{
    if n == 0 || n > entries.len() {
        None
    } else {
        match key_index(entries, key, (n - 1) as nat) {
            Some(i) => Some(i),
            None => if entries[n - 1].0 == key {
                Some(n - 1)
            } else {
                None
            },
        }
    }
}

/// The entries with `key` bound to `v`: in place of the entry that has the
/// key, or at the end where none has it.
pub open spec fn hash_insert(entries: Seq<(Seq<char>, Value)>, key: Seq<char>, v: Value) -> Seq<
    (Seq<char>, Value),
> {
    match key_index(entries, key, entries.len()) {
        Some(i) => entries.update(i, (key, v)),
        None => entries.push((key, v)),
    }
}

/// The forms of a map literal are keys and values in turn, and the keys
/// are all strings or all keywords.
pub open spec fn map_shape(items: Seq<Value>) -> bool {
    &&& items.len() % 2 == 0
    &&& {
        ||| forall|j: int| 0 <= j < items.len() && j % 2 == 0 ==> items[j] is Str
        ||| forall|j: int| 0 <= j < items.len() && j % 2 == 0 ==> items[j] is Keyword
    }
}

/// The entries that the first `n` pairs of a map literal give, inserted
/// one after the other. A key form is stored as its text.
pub open spec fn map_entries(items: Seq<Value>, n: nat) -> Seq<(Seq<char>, Value)>
    decreases n,
{
    if n == 0 || 2 * n > items.len() {
        Seq::empty()
    } else {
        hash_insert(map_entries(items, (n - 1) as nat), print(items[2 * n - 2]), items[2 * n - 1])
    }
}

/// The value of a map literal with the forms `items`.
pub open spec fn map_of(items: Seq<Value>) -> Result<Value, ReaderError> {
    if map_shape(items) {
        Ok(Value::Hash(map_entries(items, items.len() / 2)))
    } else {
        Err(ReaderError::MalformedMap)
    }
}

/// The value that the forms `items` make when the sequence they were read
/// in closes with `end`: a list for a round bracket, a vector for a square
/// one, else a hash.
pub open spec fn sequence_of(end: char, items: Seq<Value>) -> Result<Value, ReaderError> {
    if end == ')' {
        Ok(Value::List(items))
    } else if end == ']' {
        Ok(Value::Vector(items))
    } else {
        map_of(items)
    }
}

/// The form that starts at the token `pos`, with the position after it,
/// read with `depth` levels of nesting to spare.
///
/// An opening bracket starts a sequence that runs to the matching closing
/// bracket. A closing bracket met anywhere else is an error. A reader
/// macro takes the form after it, `^` the two forms after it, of which
/// the first read comes last in the result. Any other token is an atom.
/// A sequence and a reader macro take one level each; with none to spare
/// they fail.
pub open spec fn read_form(tokens: Seq<Seq<char>>, pos: int, depth: nat) -> Result<
    (Value, int),
    ReaderError,
>
    decreases tokens.len() - pos, 1nat,
{
    if pos < 0 || pos >= tokens.len() {
        Err(ReaderError::Eof)
    } else {
        match closer(tokens[pos]) {
            Some(end) => if depth == 0 {
                Err(ReaderError::RecursionLimitExceeded)
            } else {
                match read_items(tokens, pos + 1, end, (depth - 1) as nat) {
                    Ok((items, next)) => match sequence_of(end, items) {
                        Ok(v) => Ok((v, next)),
                        Err(e) => Err(e),
                    },
                    Err(e) => Err(e),
                }
            },
            None => if is_close(tokens[pos]) {
                Err(ReaderError::UnexpectedToken)
            } else {
                read_atom_at(tokens, pos, depth)
            },
        }
    }
}

/// The form that starts at the token `pos`, which opens no sequence and
/// closes none.
pub open spec fn read_atom_at(tokens: Seq<Seq<char>>, pos: int, depth: nat) -> Result<
    (Value, int),
    ReaderError,
>
    decreases tokens.len() - pos, 0nat,
{
    if pos < 0 || pos >= tokens.len() {
        Err(ReaderError::Eof)
    } else {
        let tok = tokens[pos];
        if isize_of_text(tok) is Some {
            Ok((atom_of(tok), pos + 1))
        } else if is_reader_macro(tok) {
            if depth == 0 {
                Err(ReaderError::RecursionLimitExceeded)
            } else {
                match read_form(tokens, pos + 1, (depth - 1) as nat) {
                    Ok((form, next)) => Ok((Value::List(seq![Value::Symbol(tok), form]), next)),
                    Err(e) => Err(e),
                }
            }
        } else if tok == "^"@ {
            if depth == 0 {
                Err(ReaderError::RecursionLimitExceeded)
            } else {
                match read_form(tokens, pos + 1, (depth - 1) as nat) {
                    // A form holds a token at least and ends within the
                    // tokens, so the test holds.
                    Ok((meta, after_meta)) => if pos < after_meta <= tokens.len() {
                        match read_form(tokens, after_meta, (depth - 1) as nat) {
                            Ok((target, next)) => Ok(
                                (
                                    Value::List(
                                        seq![Value::Symbol("with-meta"@), target, meta],
                                    ),
                                    next,
                                ),
                            ),
                            Err(e) => Err(e),
                        }
                    } else {
                        Err(ReaderError::Eof)
                    },
                    Err(e) => Err(e),
                }
            }
        } else {
            Ok((atom_of(tok), pos + 1))
        }
    }
}

/// The forms from the token `pos` up to the token that is the character
/// `end` alone, with the position after that token.
pub open spec fn read_items(tokens: Seq<Seq<char>>, pos: int, end: char, depth: nat) -> Result<
    (Seq<Value>, int),
    ReaderError,
>
    decreases tokens.len() - pos, 2nat,
{
    if pos < 0 || pos >= tokens.len() {
        Err(ReaderError::Eof)
    } else if tokens[pos] == seq![end] {
        Ok((Seq::empty(), pos + 1))
    } else {
        match read_form(tokens, pos, depth) {
            // A form holds a token at least and ends within the tokens,
            // so the test holds.
            Ok((first, next)) => if pos < next <= tokens.len() {
                match read_items(tokens, next, end, depth) {
                    Ok((rest, after)) => Ok((seq![first] + rest, after)),
                    Err(e) => Err(e),
                }
            } else {
                Err(ReaderError::Eof)
            },
            Err(e) => Err(e),
        }
    }
}

/// The value that a text reads as: its first form. What follows the first
/// form is not looked at.
pub open spec fn read_text(s: Seq<char>) -> Result<Value, Fault> {
    match tokens_of(s) {
        Err(e) => Err(Fault::Tokenize(e)),
        Ok(tokens) => match read_form(tokens, 0, MAX_DEPTH as nat) {
            Ok((v, _)) => Ok(v),
            Err(e) => Err(Fault::Reader(e)),
        },
    }
}

/// A form that was read holds one token at least and ends within the
/// tokens.
pub proof fn lemma_read_form_advances(tokens: Seq<Seq<char>>, pos: int, depth: nat)
    ensures
        read_form(tokens, pos, depth) matches Ok((_, next)) ==> pos < next <= tokens.len(),
        read_atom_at(tokens, pos, depth) matches Ok((_, next)) ==> pos < next <= tokens.len(),
    decreases tokens.len() - pos, 1nat,
{
    if 0 <= pos < tokens.len() && depth > 0 {
        let inner = (depth - 1) as nat;
        if let Some(end) = closer(tokens[pos]) {
            lemma_read_items_advances(tokens, pos + 1, end, inner);
        }
        lemma_read_form_advances(tokens, pos + 1, inner);
        if let Ok((_, after_meta)) = read_form(tokens, pos + 1, inner) {
            lemma_read_form_advances(tokens, after_meta, inner);
        }
    }
}

/// The items of a sequence that was read end within the tokens, beyond
/// the token they start at.
pub proof fn lemma_read_items_advances(tokens: Seq<Seq<char>>, pos: int, end: char, depth: nat)
    ensures
        read_items(tokens, pos, end, depth) matches Ok((_, after)) ==> pos < after
            <= tokens.len(),
    decreases tokens.len() - pos, 2nat,
{
    if 0 <= pos < tokens.len() && tokens[pos] != seq![end] {
        lemma_read_form_advances(tokens, pos, depth);
        if let Ok((_, next)) = read_form(tokens, pos, depth) {
            lemma_read_items_advances(tokens, next, end, depth);
        }
    }
}

/// The decimal form of an integer that the integer type holds is a token
/// that reads as that integer.
pub proof fn lemma_decimal_is_an_integer(n: int)
    requires
        isize::MIN <= n <= isize::MAX,
    ensures
        atom_of(decimal_text(n)) == Value::Int(n),
{
    lemma_decimal_round_trip(n);
}

/// What `key_index` returns is the first entry that has the key.
pub proof fn lemma_key_index(entries: Seq<(Seq<char>, Value)>, key: Seq<char>, n: nat)
    requires
        n <= entries.len(),
    ensures
        match key_index(entries, key, n) {
            Some(i) => 0 <= i < n && entries[i].0 == key && forall|j: int|
                0 <= j < i ==> entries[j].0 != key,
            None => forall|j: int| 0 <= j < n ==> entries[j].0 != key,
        },
    decreases n,
{
    if n > 0 {
        lemma_key_index(entries, key, (n - 1) as nat);
    }
}

/// Inserting into entries with distinct keys and well-formed values gives
/// such entries again, and values that nest no deeper than `depth` stay
/// such values.
pub proof fn lemma_hash_insert_sound(
    entries: Seq<(Seq<char>, Value)>,
    key: Seq<char>,
    v: Value,
    depth: nat,
)
    requires
        Value::Hash(entries).well_formed(),
        v.well_formed(),
        forall|i: int| 0 <= i < entries.len() ==> entries[i].1.nests_within(depth),
        v.nests_within(depth),
    ensures
        Value::Hash(hash_insert(entries, key, v)).well_formed(),
        forall|i: int|
            0 <= i < hash_insert(entries, key, v).len() ==> hash_insert(
                entries,
                key,
                v,
            )[i].1.nests_within(depth),
{
    lemma_key_index(entries, key, entries.len());
    let after = hash_insert(entries, key, v);
    match key_index(entries, key, entries.len()) {
        Some(at) => {
            assert forall|i: int, j: int| 0 <= i < j < after.len() implies after[i].0
                != after[j].0 by {
                assert(after[i].0 == entries[i].0);
                assert(after[j].0 == entries[j].0);
            }
            assert forall|i: int| 0 <= i < after.len() implies after[i].1.well_formed()
                && after[i].1.nests_within(depth) by {
                if i != at {
                    assert(after[i] == entries[i]);
                }
            }
        },
        None => {
            assert forall|i: int, j: int| 0 <= i < j < after.len() implies after[i].0
                != after[j].0 by {
                assert(after[i].0 == entries[i].0);
                if j < entries.len() {
                    assert(after[j].0 == entries[j].0);
                }
            }
            assert forall|i: int| 0 <= i < after.len() implies after[i].1.well_formed()
                && after[i].1.nests_within(depth) by {
                if i < entries.len() {
                    assert(after[i] == entries[i]);
                }
            }
        },
    }
}

/// The entries of a map literal whose forms are well formed and nest no
/// deeper than `depth` have distinct keys, and values that are well formed
/// and nest no deeper.
pub proof fn lemma_map_entries_sound(items: Seq<Value>, n: nat, depth: nat)
    requires
        forall|i: int|
            0 <= i < items.len() ==> items[i].well_formed() && items[i].nests_within(depth),
    ensures
        Value::Hash(map_entries(items, n)).well_formed(),
        forall|i: int|
            0 <= i < map_entries(items, n).len() ==> map_entries(items, n)[i].1.nests_within(
                depth,
            ),
    decreases n,
{
    if !(n == 0 || 2 * n > items.len()) {
        lemma_map_entries_sound(items, (n - 1) as nat, depth);
        lemma_hash_insert_sound(
            map_entries(items, (n - 1) as nat),
            print(items[2 * n - 2]),
            items[2 * n - 1],
            depth,
        );
    }
}

/// Every value that is read is well formed, no hash in it has a key
/// twice, and it nests no deeper than the levels there were to spare.
pub proof fn lemma_read_form_sound(tokens: Seq<Seq<char>>, pos: int, depth: nat)
    ensures
        read_form(tokens, pos, depth) matches Ok((v, _)) ==> v.well_formed() && v.nests_within(
            depth,
        ),
        read_atom_at(tokens, pos, depth) matches Ok((v, _)) ==> v.well_formed()
            && v.nests_within(depth),
    decreases tokens.len() - pos, 1nat,
{
    if 0 <= pos < tokens.len() {
        let tok = tokens[pos];
        assert(atom_of(tok).well_formed() && atom_of(tok).nests_within(depth));
        if depth > 0 {
            let inner = (depth - 1) as nat;
            if let Some(end) = closer(tok) {
                lemma_read_items_sound(tokens, pos + 1, end, inner);
                if let Ok((items, _)) = read_items(tokens, pos + 1, end, inner) {
                    lemma_map_entries_sound(items, items.len() / 2, inner);
                }
            }
            lemma_read_form_sound(tokens, pos + 1, inner);
            if let Ok((form, after_meta)) = read_form(tokens, pos + 1, inner) {
                let quoted = seq![Value::Symbol(tok), form];
                assert forall|i: int| 0 <= i < quoted.len() implies quoted[i].well_formed()
                    && quoted[i].nests_within(inner) by {}
                if pos < after_meta <= tokens.len() {
                    lemma_read_form_sound(tokens, after_meta, inner);
                    if let Ok((target, _)) = read_form(tokens, after_meta, inner) {
                        let annotated = seq![Value::Symbol("with-meta"@), target, form];
                        assert forall|i: int| 0 <= i < annotated.len() implies annotated[i].well_formed()
                            && annotated[i].nests_within(inner) by {}
                    }
                }
            }
        }
    }
}

/// The items of a sequence that is read are well formed and nest no
/// deeper than the levels there were to spare.
pub proof fn lemma_read_items_sound(tokens: Seq<Seq<char>>, pos: int, end: char, depth: nat)
    ensures
        read_items(tokens, pos, end, depth) matches Ok((items, _)) ==> forall|i: int|
            0 <= i < items.len() ==> items[i].well_formed() && items[i].nests_within(depth),
    decreases tokens.len() - pos, 2nat,
{
    if 0 <= pos < tokens.len() && tokens[pos] != seq![end] {
        lemma_read_form_sound(tokens, pos, depth);
        if let Ok((first, next)) = read_form(tokens, pos, depth) {
            if pos < next <= tokens.len() {
                lemma_read_items_sound(tokens, next, end, depth);
                if let Ok((rest, _)) = read_items(tokens, next, end, depth) {
                    let items = seq![first] + rest;
                    assert forall|i: int| 0 <= i < items.len() implies items[i].well_formed()
                        && items[i].nests_within(depth) by {
                        if i > 0 {
                            assert(items[i] == rest[i - 1]);
                        }
                    }
                }
            }
        }
    }
}

/// Every text that can be read reads as a well-formed value that nests no
/// deeper than the limit.
pub proof fn lemma_read_text_sound(s: Seq<char>)
    ensures
        read_text(s) matches Ok(v) ==> v.well_formed() && v.nests_within(MAX_DEPTH as nat),
{
    if let Ok(tokens) = tokens_of(s) {
        lemma_read_form_sound(tokens, 0, MAX_DEPTH as nat);
    }
}

/// The tokens of a text and a position in them: what is left to read
/// starts there.
pub struct Reader {
    tokens: Vec<String>,
    pos: usize,
}

impl Reader {
    /// The tokens, each as its text.
    pub closed spec fn tokens(&self) -> Seq<Seq<char>> {
        texts(self.tokens@)
    }

    /// The index of the next token.
    pub closed spec fn position(&self) -> int {
        self.pos as int
    }

    /// A reader at the first of `tokens`.
    pub fn new(tokens: Vec<String>) -> (r: Reader)
        ensures
            r.tokens() == texts(tokens@),
            r.position() == 0,
    {
        Reader { tokens, pos: 0 }
    }

    /// The next token, which stays the next one.
    pub fn peek(&self) -> (r: Option<&String>)
        ensures
            match r {
                Some(tok) => 0 <= self.position() < self.tokens().len() && tok@
                    == self.tokens()[self.position()],
                None => self.position() >= self.tokens().len(),
            },
    {
        if self.pos < self.tokens.len() {
            Some(&self.tokens[self.pos])
        } else {
            None
        }
    }

    /// The next token, which is then behind the reader.
    pub fn next(&mut self) -> (r: Option<String>)
        ensures
            final(self).tokens() == old(self).tokens(),
            match r {
                Some(tok) => {
                    &&& 0 <= old(self).position() < old(self).tokens().len()
                    &&& tok@ == old(self).tokens()[old(self).position()]
                    &&& final(self).position() == old(self).position() + 1
                },
                None => {
                    &&& old(self).position() >= old(self).tokens().len()
                    &&& final(self).position() == old(self).position()
                },
            },
    {
        if self.pos < self.tokens.len() {
            let tok = self.tokens[self.pos].clone();
            self.pos = self.pos + 1;
            Some(tok)
        } else {
            None
        }
    }
}

/// The first character of `tok`, if it has one.
fn first_char(tok: &String) -> (r: Option<char>)
    ensures
        match r {
            Some(c) => tok@.len() > 0 && c == tok@[0],
            None => tok@.len() == 0,
        },
{
    if tok.as_str().is_empty() {
        None
    } else {
        Some(tok.as_str().get_char(0))
    }
}

/// Whether `tok` closes a sequence.
fn closes(tok: &String) -> (r: bool)
    ensures
        r == is_close(tok@),
{
    proof {
        reveal_strlit(")");
        reveal_strlit("]");
        reveal_strlit("}");
        assert(")"@ =~= seq![')']);
        assert("]"@ =~= seq![']']);
        assert("}"@ =~= seq!['}']);
    }
    text_is(tok, ")") || text_is(tok, "]") || text_is(tok, "}")
}

/// The character that closes the sequence that `tok` opens, where it opens
/// one.
fn closer_of(tok: &String) -> (r: Option<char>)
    ensures
        r == closer(tok@),
{
    match first_char(tok) {
        Some('(') => Some(')'),
        Some('[') => Some(']'),
        Some('{') => Some('}'),
        _ => None,
    }
}

/// Whether every character of `chars` is alphabetic.
fn alphabetic(chars: &Vec<char>) -> (r: bool)
    ensures
        r == all_alphabetic(chars@),
{
    let mut i: usize = 0;
    while i < chars.len()
        invariant
            i <= chars.len(),
            forall|j: int| 0 <= j < i ==> char_is_alphabetic(chars@[j]),
        decreases chars.len() - i,
    {
        if !chars[i].is_alphabetic() {
            return false;
        }
        i = i + 1;
    }
    true
}

/// Whether `tok` is a reader macro.
fn abbreviates(tok: &String) -> (r: bool)
    ensures
        r == is_reader_macro(tok@),
{
    text_is(tok, "'") || text_is(tok, "`") || text_is(tok, "~") || text_is(tok, "~@") || text_is(
        tok,
        "@",
    )
}

/// The value of a token that stands for itself and is no integer.
fn atom(token: String, chars: &Vec<char>) -> (r: MalVal)
    requires
        chars@ == token@,
        isize_of_text(token@) is None,
    ensures
        r@ == atom_of(token@),
{
    let n = chars.len();
    if n > 0 && chars[0] == '"' {
        if n >= 2 {
            MalVal::Str(text_of(chars, 1, n - 1))
        } else {
            MalVal::Str(String::new())
        }
    } else if n > 0 && chars[0] == ':' {
        let mut stored = String::new();
        stored.push(KEYWORD_MARKER);
        let name = text_of(chars, 1, n);
        stored.append(name.as_str());
        assert(stored@ =~= seq![KEYWORD_MARKER] + token@.skip(1));
        MalVal::Keyword(stored)
    } else if text_is(&token, "nil") {
        MalVal::Nil
    } else if text_is(&token, "true") {
        MalVal::Bool(true)
    } else if text_is(&token, "false") {
        MalVal::Bool(false)
    } else if alphabetic(chars) {
        MalVal::Str(token)
    } else {
        MalVal::Symbol(token)
    }
}

/// Reads the form that starts at the next token, with `depth` levels of
/// nesting to spare.
///
/// Fails where the tokens end before the form does, where a closing
/// bracket closes nothing, where a map literal is malformed, and where
/// sequences and reader macros nest deeper than `depth`. The calls nest as
/// deep as the form does, so no deeper than `depth` allows.
pub fn read_from(reader: &mut Reader, depth: usize) -> (r: Result<MalVal, ReaderError>)
    ensures
        final(reader).tokens() == old(reader).tokens(),
        match read_form(old(reader).tokens(), old(reader).position(), depth as nat) {
            Ok((v, next)) => r matches Ok(x) && x@ == v && final(reader).position() == next,
            Err(e) => r matches Err(x) && x == e,
        },
    decreases old(reader).tokens().len() - old(reader).position(), 1nat,
{
    let (end, close) = match reader.peek() {
        None => {
            return Err(ReaderError::Eof);
        },
        Some(tok) => (closer_of(tok), closes(tok)),
    };
    match end {
        Some(end) => {
            if depth == 0 {
                Err(ReaderError::RecursionLimitExceeded)
            } else {
                read_seq(reader, end, depth - 1)
            }
        },
        None => {
            if close {
                Err(ReaderError::UnexpectedToken)
            } else {
                read_atom(reader, depth)
            }
        },
    }
}

/// Reads the form that starts at the next token, which opens no sequence
/// and closes none.
pub fn read_atom(reader: &mut Reader, depth: usize) -> (r: Result<MalVal, ReaderError>)
    requires
        0 <= old(reader).position() < old(reader).tokens().len(),
    ensures
        final(reader).tokens() == old(reader).tokens(),
        match read_atom_at(old(reader).tokens(), old(reader).position(), depth as nat) {
            Ok((v, next)) => r matches Ok(x) && x@ == v && final(reader).position() == next,
            Err(e) => r matches Err(x) && x == e,
        },
    decreases old(reader).tokens().len() - old(reader).position(), 0nat,
{
    let ghost tokens = reader.tokens();
    let ghost pos = reader.position();
    let token = match reader.next() {
        Some(token) => token,
        None => {
            return Err(ReaderError::Eof);
        },
    };
    let chars = chars_of(token.as_str());
    if let Some(n) = parse_int(&chars) {
        Ok(MalVal::Int(n))
    } else if abbreviates(&token) {
        if depth == 0 {
            return Err(ReaderError::RecursionLimitExceeded);
        }
        match read_from(reader, depth - 1) {
            Ok(form) => {
                let mut list: Vec<MalVal> = Vec::new();
                list.push(MalVal::Symbol(token));
                list.push(form);
                assert(view_items(list@) =~= seq![Value::Symbol(token@), form@]);
                Ok(MalVal::List(list))
            },
            Err(e) => Err(e),
        }
    } else if text_is(&token, "^") {
        if depth == 0 {
            return Err(ReaderError::RecursionLimitExceeded);
        }
        let meta = match read_from(reader, depth - 1) {
            Ok(meta) => meta,
            Err(e) => {
                return Err(e);
            },
        };
        proof {
            lemma_read_form_advances(tokens, pos + 1, (depth - 1) as nat);
        }
        let target = match read_from(reader, depth - 1) {
            Ok(target) => target,
            Err(e) => {
                return Err(e);
            },
        };
        let mut list: Vec<MalVal> = Vec::new();
        list.push(MalVal::Symbol(String::from_str("with-meta")));
        list.push(target);
        list.push(meta);
        assert(view_items(list@) =~= seq![Value::Symbol("with-meta"@), target@, meta@]);
        Ok(MalVal::List(list))
    } else {
        Ok(atom(token, &chars))
    }
}

/// Reads a sequence: the next token opens it, and it runs to the token
/// that is the character `end` alone. Its forms are read with `depth`
/// levels of nesting to spare.
pub fn read_seq(reader: &mut Reader, end: char, depth: usize) -> (r: Result<MalVal, ReaderError>)
    requires
        0 <= old(reader).position() < old(reader).tokens().len(),
        end == ')' || end == ']' || end == '}',
    ensures
        final(reader).tokens() == old(reader).tokens(),
        match read_items(
            old(reader).tokens(),
            old(reader).position() + 1,
            end,
            depth as nat,
        ) {
            Ok((items, next)) => match sequence_of(end, items) {
                Ok(v) => r matches Ok(x) && x@ == v && final(reader).position() == next,
                Err(e) => r matches Err(x) && x == e,
            },
            Err(e) => r matches Err(x) && x == e,
        },
    decreases old(reader).tokens().len() - old(reader).position(), 0nat,
{
    let ghost tokens = reader.tokens();
    let ghost start = reader.position() + 1;
    let _open = reader.next();
    let mut close = String::new();
    close.push(end);
    assert(close@ =~= seq![end]);
    let mut list: Vec<MalVal> = Vec::new();
    assert(view_items(list@) =~= Seq::empty());
    loop
        invariant
            reader.tokens() == tokens,
            tokens == old(reader).tokens(),
            start == old(reader).position() + 1,
            start <= reader.position(),
            close@ == seq![end],
            end == ')' || end == ']' || end == '}',
            read_items(tokens, start, end, depth as nat) == items_then(
                view_items(list@),
                read_items(tokens, reader.position(), end, depth as nat),
            ),
        decreases tokens.len() - reader.position(),
    {
        let at_end = match reader.peek() {
            None => {
                return Err(ReaderError::Eof);
            },
            Some(tok) => *tok == close,
        };
        if at_end {
            let _close = reader.next();
            assert(view_items(list@) + Seq::<Value>::empty() =~= view_items(list@));
            return finish(end, list);
        }
        let ghost here = reader.position();
        let ghost done = view_items(list@);
        proof {
            lemma_read_form_advances(tokens, here, depth as nat);
        }
        match read_from(reader, depth) {
            Ok(form) => {
                proof {
                    lemma_items_then_step(
                        done,
                        form@,
                        read_items(tokens, reader.position(), end, depth as nat),
                    );
                }
                list.push(form);
                assert(view_items(list@) =~= done.push(form@));
            },
            Err(e) => {
                return Err(e);
            },
        }
    }
}

/// `done` followed by what the rest of the tokens yield.
pub open spec fn items_then(done: Seq<Value>, rest: Result<(Seq<Value>, int), ReaderError>) -> Result<
    (Seq<Value>, int),
    ReaderError,
> {
    match rest {
        Ok((items, end)) => Ok((done + items, end)),
        Err(e) => Err(e),
    }
}

/// Moving one form from the front of the rest to the end of what is done
/// changes nothing.
proof fn lemma_items_then_step(
    done: Seq<Value>,
    form: Value,
    rest: Result<(Seq<Value>, int), ReaderError>,
)
    ensures
        items_then(
            done,
            match rest {
                Ok((items, end)) => Ok((seq![form] + items, end)),
                Err(e) => Err(e),
            },
        ) == items_then(done.push(form), rest),
{
    if let Ok((items, end)) = rest {
        assert(done + (seq![form] + items) =~= done.push(form) + items);
    }
}

/// Makes the value of a sequence that closed with `end` from its forms.
fn finish(end: char, list: Vec<MalVal>) -> (r: Result<MalVal, ReaderError>)
    ensures
        match sequence_of(end, view_items(list@)) {
            Ok(v) => r matches Ok(x) && x@ == v,
            Err(e) => r matches Err(x) && x == e,
        },
{
    if end == ')' {
        Ok(MalVal::List(list))
    } else if end == ']' {
        Ok(MalVal::Vector(list))
    } else {
        build_map(list)
    }
}

/// Makes a hash from the forms of a map literal.
fn build_map(list: Vec<MalVal>) -> (r: Result<MalVal, ReaderError>)
    ensures
        match map_of(view_items(list@)) {
            Ok(v) => r matches Ok(x) && x@ == v,
            Err(e) => r matches Err(x) && x == e,
        },
{
    let ghost items = view_items(list@);
    if list.len() % 2 != 0 {
        return Err(ReaderError::MalformedMap);
    }
    let mut entries: Vec<(String, MalVal)> = Vec::new();
    if list.len() == 0 {
        assert(view_entries(entries@) =~= map_entries(items, 0));
        return Ok(MalVal::Hash(entries));
    }
    let strings = match &list[0] {
        MalVal::Str(_) => true,
        MalVal::Keyword(_) => false,
        _ => {
            assert(!(items[0] is Str) && !(items[0] is Keyword));
            return Err(ReaderError::MalformedMap);
        },
    };
    let count = list.len() / 2;
    let mut k: usize = 0;
    assert(view_entries(entries@) =~= map_entries(items, 0));
    while k < count
        invariant
            k <= count,
            count == list.len() / 2,
            list.len() % 2 == 0,
            list.len() > 0,
            items == view_items(list@),
            strings ==> items[0] is Str,
            !strings ==> items[0] is Keyword,
            forall|j: int|
                0 <= j < 2 * k && j % 2 == 0 ==> if strings {
                    items[j] is Str
                } else {
                    items[j] is Keyword
                },
            view_entries(entries@) == map_entries(items, k as nat),
        decreases count - k,
    {
        let fits = match &list[2 * k] {
            MalVal::Str(_) => strings,
            MalVal::Keyword(_) => !strings,
            _ => false,
        };
        if !fits {
            assert(!(items[2 * k] is Str) || !(items[2 * k] is Keyword));
            assert(!map_shape(items));
            return Err(ReaderError::MalformedMap);
        }
        let key = list[2 * k].to_string();
        let value = list[2 * k + 1].clone();
        let ghost before = view_entries(entries@);
        assert(key@ == print(items[2 * (k + 1) - 2]));
        assert(value@ == items[2 * (k + 1) - 1]);
        assert(map_entries(items, (k + 1) as nat) == hash_insert(before, key@, value@));
        assert(before.len() == entries@.len());
        let ghost after = hash_insert(before, key@, value@);
        match find_key(&entries, &key) {
            Some(i) => {
                entries.set(i, (key, value));
                assert(view_entries(entries@) =~= before.update(i as int, (key@, value@)));
                assert(view_entries(entries@) == after);
            },
            None => {
                entries.push((key, value));
                assert(view_entries(entries@) =~= before.push((key@, value@)));
                assert(view_entries(entries@) == after);
            },
        }
        k = k + 1;
    }
    Ok(MalVal::Hash(entries))
}

/// The index of the first entry that has the key `key`.
fn find_key(entries: &Vec<(String, MalVal)>, key: &String) -> (r: Option<usize>)
    ensures
        match r {
            Some(i) => i < entries@.len() && key_index(
                view_entries(entries@),
                key@,
                entries@.len(),
            ) == Some(i as int),
            None => key_index(view_entries(entries@), key@, entries@.len()) is None,
        },
{
    let ghost model = view_entries(entries@);
    let mut i: usize = 0;
    while i < entries.len()
        invariant
            i <= entries.len(),
            model == view_entries(entries@),
            key_index(model, key@, i as nat) is None,
        decreases entries.len() - i,
    {
        if entries[i].0 == *key {
            proof {
                lemma_key_found(model, key@, (i + 1) as nat, entries@.len());
            }
            return Some(i);
        }
        i = i + 1;
    }
    None
}

/// An index that was found stays the index found, however many entries
/// follow.
proof fn lemma_key_found(entries: Seq<(Seq<char>, Value)>, key: Seq<char>, n: nat, m: nat)
    requires
        n <= m <= entries.len(),
        key_index(entries, key, n) is Some,
    ensures
        key_index(entries, key, m) == key_index(entries, key, n),
        0 <= key_index(entries, key, n)->Some_0 < n,
    decreases m,
{
    if n < m {
        lemma_key_found(entries, key, n, (m - 1) as nat);
    } else if n > 0 {
        if key_index(entries, key, (n - 1) as nat) is Some {
            lemma_key_found(entries, key, (n - 1) as nat, (n - 1) as nat);
        }
    }
}

/// Reads the first form of a text.
///
/// Fails where the text ends inside a string, and where the form cannot
/// be read or nests deeper than [`MAX_DEPTH`]. What follows the first form
/// is not looked at.
pub fn read_str(s: String) -> (r: Result<MalVal, MalError>)
    ensures
        agrees(r, read_text(s@)),
{
    let tokens = match tokenize(s) {
        Ok(tokens) => tokens,
        Err(e) => {
            return Err(MalError::Tokenize(e));
        },
    };
    let mut reader = Reader::new(tokens);
    match read_from(&mut reader, MAX_DEPTH) {
        Ok(v) => Ok(v),
        Err(e) => Err(MalError::Reader(e)),
    }
}

} // verus!
