//! The tokenizer: from a text to its tokens.

use vstd::prelude::*;
use crate::error::TokenizeError;
use crate::text::{chars_of, text_of};
use crate::trusted::char_is_whitespace;

verus! {

/// A character that is a token by itself.
pub open spec fn is_special(c: char) -> bool {
    c == '(' || c == ')' || c == '[' || c == ']' || c == '{' || c == '}' || c == '\'' || c == '`'
        || c == '~' || c == '^' || c == '@'
}

/// A character that separates tokens and belongs to none.
pub open spec fn is_separator(c: char) -> bool {
    char_is_whitespace(c) || c == ','
}

/// A character that cannot continue a plain token.
pub open spec fn ends_run(c: char) -> bool {
    is_separator(c) || is_special(c) || c == '"' || c == ';'
}

/// The index of the quote that closes a string, looking from `from` on.
/// `escape` says whether the character at `from` is escaped by an odd run
/// of backslashes before it. `None` when the text ends first.
pub open spec fn string_end(s: Seq<char>, from: int, escape: bool) -> Option<int>
    decreases s.len() - from,
{
    if from < 0 || from >= s.len() {
        None
    } else if s[from] == '"' && !escape {
        Some(from)
    } else {
        string_end(s, from + 1, s[from] == '\\' && !escape)
    }
}

/// The first index from `from` on that holds whitespace, or the length of
/// the text: where a comment that is being read stops.
pub open spec fn comment_end(s: Seq<char>, from: int) -> int
    decreases s.len() - from,
{
    if from < 0 || from >= s.len() {
        s.len() as int
    } else if char_is_whitespace(s[from]) {
        from
    } else {
        comment_end(s, from + 1)
    }
}

/// The first index from `from` on that cannot continue a plain token, or
/// the length of the text.
pub open spec fn run_end(s: Seq<char>, from: int) -> int
    decreases s.len() - from,
{
    if from < 0 || from >= s.len() {
        s.len() as int
    } else if ends_run(s[from]) {
        from
    } else {
        run_end(s, from + 1)
    }
}

/// `done` followed by what the rest of the text yields.
pub open spec fn tokens_then(
    done: Seq<Seq<char>>,
    rest: Result<Seq<Seq<char>>, TokenizeError>,
) -> Result<Seq<Seq<char>>, TokenizeError> {
    match rest {
        Ok(ts) => Ok(done + ts),
        Err(e) => Err(e),
    }
}

/// The quote that closes a string lies at `from` or after it, within the
/// text, and is a quote.
pub proof fn lemma_string_end_bounds(s: Seq<char>, from: int, escape: bool)
    requires
        0 <= from,
    ensures
        string_end(s, from, escape) matches Some(e) ==> from <= e < s.len() && s[e] == '"',
    decreases s.len() - from,
{
    if from < s.len() && !(s[from] == '"' && !escape) {
        lemma_string_end_bounds(s, from + 1, s[from] == '\\' && !escape);
    }
}

/// A comment stops at `from` or after it, within the text or at its end.
pub proof fn lemma_comment_end_bounds(s: Seq<char>, from: int)
    requires
        0 <= from <= s.len(),
    ensures
        from <= comment_end(s, from) <= s.len(),
    decreases s.len() - from,
{
    if from < s.len() && !char_is_whitespace(s[from]) {
        lemma_comment_end_bounds(s, from + 1);
    }
}

/// A plain token stops at `from` or after it, within the text or at its
/// end.
pub proof fn lemma_run_end_bounds(s: Seq<char>, from: int)
    requires
        0 <= from <= s.len(),
    ensures
        from <= run_end(s, from) <= s.len(),
    decreases s.len() - from,
{
    if from < s.len() && !ends_run(s[from]) {
        lemma_run_end_bounds(s, from + 1);
    }
}

/// The tokens of `s` from index `from` on.
///
/// Separators are skipped. `~@` is one token; every other special
/// character is a token by itself. A double quote opens a string token
/// that runs to the closing quote, both included. A semicolon opens a
/// comment token that runs up to the next whitespace. Any other character
/// opens a plain token that runs as far as it can.
pub open spec fn tokens_from(s: Seq<char>, from: int) -> Result<Seq<Seq<char>>, TokenizeError>
    decreases s.len() - from,
{
    if from < 0 || from >= s.len() {
        Ok(Seq::empty())
    } else if is_separator(s[from]) {
        tokens_from(s, from + 1)
    } else if s[from] == '~' && from + 1 < s.len() && s[from + 1] == '@' {
        tokens_then(seq![s.subrange(from, from + 2)], tokens_from(s, from + 2))
    } else if is_special(s[from]) {
        tokens_then(seq![s.subrange(from, from + 1)], tokens_from(s, from + 1))
    } else if s[from] == '"' {
        match string_end(s, from + 1, false) {
            None => Err(TokenizeError::UnterminatedString),
            Some(e) => {
                proof {
                    lemma_string_end_bounds(s, from + 1, false);
                }
                tokens_then(seq![s.subrange(from, e + 1)], tokens_from(s, e + 1))
            },
        }
    } else if s[from] == ';' {
        let e = comment_end(s, from + 1);
        proof {
            lemma_comment_end_bounds(s, from + 1);
        }
        tokens_then(seq![s.subrange(from, e)], tokens_from(s, e))
    } else {
        let e = run_end(s, from + 1);
        proof {
            lemma_run_end_bounds(s, from + 1);
        }
        tokens_then(seq![s.subrange(from, e)], tokens_from(s, e))
    }
}

/// The tokens of a whole text.
pub open spec fn tokens_of(s: Seq<char>) -> Result<Seq<Seq<char>>, TokenizeError> {
    tokens_from(s, 0)
}

/// The texts of a sequence of strings.
pub open spec fn texts(v: Seq<String>) -> Seq<Seq<char>> {
    v.map_values(|t: String| t@)
}

/// The text from `from` on is the tokens `ts`, one after the other and
/// none of them empty, with separators alone before, between and after
/// them.
pub open spec fn covers(s: Seq<char>, ts: Seq<Seq<char>>, from: int) -> bool
    decreases ts.len(),
{
    if ts.len() == 0 {
        forall|i: int| from <= i < s.len() ==> is_separator(s[i])
    } else {
        exists|a: int, b: int|
            {
                &&& from <= a < b <= s.len()
                &&& forall|i: int| from <= i < a ==> is_separator(s[i])
                &&& ts[0] == #[trigger] s.subrange(a, b)
                &&& covers(s, ts.skip(1), b)
            }
    }
}

/// The tokens of a text are pieces of the text, in the order in which they
/// stand in it, and all that the tokenizer passes over is separators.
pub proof fn lemma_tokens_cover(s: Seq<char>, from: int)
    requires
        0 <= from,
    ensures
        tokens_from(s, from) matches Ok(ts) ==> covers(s, ts, from),
    decreases s.len() - from,
{
    if from < s.len() {
        if let Ok(ts) = tokens_from(s, from) {
            if is_separator(s[from]) {
                lemma_tokens_cover(s, from + 1);
                if ts.len() > 0 {
                    let (a, b) = choose|a: int, b: int|
                        {
                            &&& from + 1 <= a < b <= s.len()
                            &&& forall|i: int| from + 1 <= i < a ==> is_separator(s[i])
                            &&& ts[0] == #[trigger] s.subrange(a, b)
                            &&& covers(s, ts.skip(1), b)
                        };
                    assert(from <= a < b <= s.len() && (forall|i: int|
                        from <= i < a ==> is_separator(s[i])) && ts[0] == s.subrange(a, b)
                        && covers(s, ts.skip(1), b));
                }
            } else {
                let next = if s[from] == '~' && from + 1 < s.len() && s[from + 1] == '@' {
                    from + 2
                } else if is_special(s[from]) {
                    from + 1
                } else if s[from] == '"' {
                    lemma_string_end_bounds(s, from + 1, false);
                    string_end(s, from + 1, false)->Some_0 + 1
                } else if s[from] == ';' {
                    lemma_comment_end_bounds(s, from + 1);
                    comment_end(s, from + 1)
                } else {
                    lemma_run_end_bounds(s, from + 1);
                    run_end(s, from + 1)
                };
                lemma_tokens_cover(s, next);
                let rest = tokens_from(s, next)->Ok_0;
                assert(ts.skip(1) =~= rest);
                assert(from <= from < next <= s.len() && (forall|i: int|
                    from <= i < from ==> is_separator(s[i])) && ts[0] == s.subrange(from, next)
                    && covers(s, ts.skip(1), next));
            }
        }
    }
}

/// No token is empty.
pub proof fn lemma_tokens_nonempty(s: Seq<char>, from: int)
    ensures
        tokens_from(s, from) matches Ok(ts) ==> forall|i: int|
            0 <= i < ts.len() ==> (#[trigger] ts[i]).len() > 0,
    decreases s.len() - from,
{
    if 0 <= from < s.len() {
        let next = if is_separator(s[from]) {
            from + 1
        } else if s[from] == '~' && from + 1 < s.len() && s[from + 1] == '@' {
            from + 2
        } else if is_special(s[from]) {
            from + 1
        } else if s[from] == '"' {
            lemma_string_end_bounds(s, from + 1, false);
            match string_end(s, from + 1, false) {
                Some(e) => e + 1,
                None => from + 1,
            }
        } else if s[from] == ';' {
            lemma_comment_end_bounds(s, from + 1);
            comment_end(s, from + 1)
        } else {
            lemma_run_end_bounds(s, from + 1);
            run_end(s, from + 1)
        };
        lemma_tokens_nonempty(s, next);
        if let Ok(ts) = tokens_from(s, from) {
            if !is_separator(s[from]) {
                let rest = tokens_from(s, next)->Ok_0;
                assert forall|i: int| 0 <= i < ts.len() implies (#[trigger] ts[i]).len() > 0 by {
                    if i > 0 {
                        assert(ts[i] == rest[i - 1]);
                    }
                }
            }
        }
    }
}

/// A text of separators alone has no token.
pub proof fn lemma_blank_text(s: Seq<char>, from: int)
    requires
        forall|i: int| from <= i < s.len() ==> is_separator(s[i]),
    ensures
        tokens_from(s, from) == Ok::<Seq<Seq<char>>, TokenizeError>(Seq::empty()),
    decreases s.len() - from,
{
    if 0 <= from < s.len() {
        lemma_blank_text(s, from + 1);
    }
}

/// Moving one token from the front of the rest to the end of what is done
/// changes nothing.
proof fn lemma_tokens_then_step(
    done: Seq<Seq<char>>,
    tok: Seq<char>,
    rest: Result<Seq<Seq<char>>, TokenizeError>,
)
    ensures
        tokens_then(done, tokens_then(seq![tok], rest)) == tokens_then(done.push(tok), rest),
{
    if let Ok(ts) = rest {
        assert(done + (seq![tok] + ts) =~= done.push(tok) + ts);
    }
}

/// Whether `c` is a token by itself.
fn special(c: char) -> (r: bool)
    ensures
        r == is_special(c),
{
    c == '(' || c == ')' || c == '[' || c == ']' || c == '{' || c == '}' || c == '\'' || c == '`'
        || c == '~' || c == '^' || c == '@'
}

/// Whether `c` separates tokens.
fn separator(c: char) -> (r: bool)
    ensures
        r == is_separator(c),
{
    c.is_whitespace() || c == ','
}

/// Finds the quote that closes the string whose first character after the
/// opening quote is at `from`.
fn find_string_end(chars: &Vec<char>, from: usize) -> (r: Option<usize>)
    requires
        from <= chars.len(),
    ensures
        match r {
            Some(e) => from <= e < chars.len() && string_end(chars@, from as int, false) == Some(
                e as int,
            ),
            None => string_end(chars@, from as int, false) is None,
        },
{
    let mut j: usize = from;
    let mut escape = false;
    while j < chars.len()
        invariant
            from <= j <= chars.len(),
            string_end(chars@, from as int, false) == string_end(chars@, j as int, escape),
        decreases chars.len() - j,
    {
        let c = chars[j];
        if c == '"' && !escape {
            return Some(j);
        }
        escape = c == '\\' && !escape;
        j = j + 1;
    }
    None
}

/// Finds where the comment that is being read from `from` on stops.
fn find_comment_end(chars: &Vec<char>, from: usize) -> (r: usize)
    requires
        from <= chars.len(),
    ensures
        r == comment_end(chars@, from as int),
        from <= r <= chars.len(),
{
    let mut j: usize = from;
    while j < chars.len() && !chars[j].is_whitespace()
        invariant
            from <= j <= chars.len(),
            comment_end(chars@, from as int) == comment_end(chars@, j as int),
        decreases chars.len() - j,
    {
        j = j + 1;
    }
    j
}

/// Finds where the plain token that is being read from `from` on stops.
fn find_run_end(chars: &Vec<char>, from: usize) -> (r: usize)
    requires
        from <= chars.len(),
    ensures
        r == run_end(chars@, from as int),
        from <= r <= chars.len(),
{
    let mut j: usize = from;
    while j < chars.len() && !(separator(chars[j]) || special(chars[j]) || chars[j] == '"'
        || chars[j] == ';')
        invariant
            from <= j <= chars.len(),
            run_end(chars@, from as int) == run_end(chars@, j as int),
        decreases chars.len() - j,
    {
        j = j + 1;
    }
    j
}

/// Splits a text into its tokens.
///
/// Fails only when the text ends inside a string.
pub fn tokenize(s: String) -> (r: Result<Vec<String>, TokenizeError>)
    ensures
        match tokens_of(s@) {
            Ok(ts) => r matches Ok(v) && texts(v@) == ts,
            Err(e) => r == Err::<Vec<String>, TokenizeError>(e),
        },
{
    let chars = chars_of(s.as_str());
    let n = chars.len();
    let mut tokens: Vec<String> = Vec::new();
    let mut i: usize = 0;
    assert(texts(tokens@) =~= Seq::empty());
    assert(tokens_of(s@) == tokens_then(texts(tokens@), tokens_from(chars@, 0))) by {
        if let Ok(ts) = tokens_of(s@) {
            assert(Seq::<Seq<char>>::empty() + ts =~= ts);
        }
    }
    while i < n
        invariant
            n == chars.len(),
            chars@ == s@,
            i <= n,
            tokens_of(s@) == tokens_then(texts(tokens@), tokens_from(chars@, i as int)),
        decreases n - i,
    {
        let c = chars[i];
        let ghost done = texts(tokens@);
        let next: usize;
        if separator(c) {
            i = i + 1;
            continue;
        } else if c == '~' && i + 1 < n && chars[i + 1] == '@' {
            next = i + 2;
        } else if special(c) {
            next = i + 1;
        } else if c == '"' {
            match find_string_end(&chars, i + 1) {
                None => {
                    return Err(TokenizeError::UnterminatedString);
                },
                Some(e) => {
                    next = e + 1;
                },
            }
        } else if c == ';' {
            next = find_comment_end(&chars, i + 1);
        } else {
            next = find_run_end(&chars, i + 1);
        }
        let tok = text_of(&chars, i, next);
        proof {
            lemma_tokens_then_step(done, tok@, tokens_from(chars@, next as int));
        }
        tokens.push(tok);
        assert(texts(tokens@) =~= done.push(tok@));
        i = next;
    }
    assert(texts(tokens@) + Seq::<Seq<char>>::empty() =~= texts(tokens@));
    Ok(tokens)
}

} // verus!
