//! Characters to tokens.
//!
//! A name is a letter, an underscore or any character past ASCII, followed by
//! more of those or digits, so `π`, `测试` and `☕` are names. A number is
//! digits, optionally a fraction and optionally an exponent: `3`, `0.5`,
//! `1.0e400`. Whitespace separates tokens and is otherwise ignored.
use vstd::prelude::*;

use crate::ast::{keyword_op, unary_keyword, UnaryOp};

verus! {

#[derive(Debug, Clone, Copy, PartialEq, Eq, Structural)]
pub enum Tok {
    /// An unsigned decimal number.
    Number,
    /// `pi`
    Pi,
    /// `e`
    Euler,
    Name,
    /// `var`
    Var,
    /// `return`, which may stand before a block's result.
    Return,
    /// `sum`
    Sum,
    /// `prod`
    Prod,
    /// A one-argument function other than `log`.
    Unary(UnaryOp),
    /// `log`: one argument or two.
    Log,
    /// `max`
    Max,
    /// `min`
    Min,
    Plus,
    Minus,
    Star,
    Slash,
    Percent,
    Caret,
    LeftParen,
    RightParen,
    LeftBracket,
    RightBracket,
    Comma,
    Semicolon,
    Assign,
    /// `==`
    EqEq,
    Lt,
    Lte,
    Gt,
    Gte,
    /// `+/-`
    PlusMinus,
    /// `->`
    Arrow,
    /// The end of the text.
    End,
}

/// A token and the characters `start..end` it covers.
#[derive(Debug, Clone, Copy, PartialEq, Eq, Structural)]
pub struct Token {
    pub tok: Tok,
    pub start: usize,
    pub end: usize,
}

/// Tokens as the lexer produces them: in order, not overlapping, within the
/// text, and closed by one `End` at its end.
pub open spec fn well_ordered(tokens: Seq<Token>, len: nat) -> bool {
    &&& tokens.len() >= 1
    &&& tokens.last().tok == Tok::End
    &&& tokens.last().start == len && tokens.last().end == len
    &&& forall|i: int| 0 <= i < tokens.len() ==> (#[trigger] tokens[i]).start <= tokens[i].end <= len
    &&& forall|i: int| 0 <= i < tokens.len() - 1 ==> (#[trigger] tokens[i]).tok != Tok::End
        && tokens[i].start < tokens[i].end
    &&& forall|i: int, j: int| 0 <= i < j < tokens.len() ==> (#[trigger] tokens[i]).end <= (#[trigger] tokens[j]).start
}

pub open spec fn is_digit(c: char) -> bool {
    '0' <= c <= '9'
}

pub open spec fn is_name_start(c: char) -> bool {
    ||| 'a' <= c <= 'z'
    ||| 'A' <= c <= 'Z'
    ||| c == '_'
    ||| c as u32 >= 0x80
}

pub open spec fn is_name_part(c: char) -> bool {
    is_name_start(c) || is_digit(c)
}

pub open spec fn is_space(c: char) -> bool {
    c == ' ' || c == '\t' || c == '\n' || c == '\r'
}

fn digit(c: char) -> (b: bool)
    ensures
        b == is_digit(c),
{
    '0' <= c && c <= '9'
}

fn name_start(c: char) -> (b: bool)
    ensures
        b == is_name_start(c),
{
    ('a' <= c && c <= 'z') || ('A' <= c && c <= 'Z') || c == '_' || (c as u32) >= 0x80
}

fn name_part(c: char) -> (b: bool)
    ensures
        b == is_name_part(c),
{
    name_start(c) || digit(c)
}

/// Whether `chars[start..end]` spells `word`.
fn spells(chars: &Vec<char>, start: usize, end: usize, word: &str) -> (same: bool)
    requires
        start <= end <= chars@.len(),
    ensures
        same == (chars@.subrange(start as int, end as int) == word@),
{
    let w = crate::text::chars_of(word);
    if end - start != w.len() {
        proof {
            assert(chars@.subrange(start as int, end as int).len() != word@.len());
        }
        return false;
    }
    let mut i: usize = 0;
    while i < w.len()
        invariant
            start <= end <= chars@.len(),
            end - start == w@.len(),
            w@ == word@,
            i <= w@.len(),
            forall|j: int| 0 <= j < i ==> chars@[start + j] == w@[j],
        decreases w@.len() - i,
    {
        if chars[start + i] != w[i] {
            proof {
                assert(chars@.subrange(start as int, end as int)[i as int] != word@[i as int]);
            }
            return false;
        }
        i += 1;
    }
    proof {
        assert(chars@.subrange(start as int, end as int) =~= word@);
    }
    true
}

/// The token a keyword other than a one-argument function stands for.
pub open spec fn keyword_token(w: Seq<char>) -> Option<Tok> {
    if w == "var"@ {
        Some(Tok::Var)
    } else if w == "return"@ {
        Some(Tok::Return)
    } else if w == "sum"@ {
        Some(Tok::Sum)
    } else if w == "prod"@ {
        Some(Tok::Prod)
    } else if w == "pi"@ {
        Some(Tok::Pi)
    } else if w == "e"@ {
        Some(Tok::Euler)
    } else if w == "log"@ {
        Some(Tok::Log)
    } else if w == "max"@ {
        Some(Tok::Max)
    } else if w == "min"@ {
        Some(Tok::Min)
    } else {
        None
    }
}

/// The token a name-shaped word is: a keyword, a one-argument function,
/// or a name.
pub open spec fn word_token(w: Seq<char>) -> Tok {
    match keyword_token(w) {
        Some(t) => t,
        None => match keyword_op(w) {
            Some(op) => Tok::Unary(op),
            None => Tok::Name,
        },
    }
}

/// Where the run of digits starting at `i` ends.
pub open spec fn digits_to(c: Seq<char>, i: int) -> int
    decreases c.len() - i,
{
    if 0 <= i < c.len() && is_digit(c[i]) {
        digits_to(c, i + 1)
    } else {
        i
    }
}

/// Where the run of name characters starting at `i` ends.
pub open spec fn name_to(c: Seq<char>, i: int) -> int
    decreases c.len() - i,
{
    if 0 <= i < c.len() && is_name_part(c[i]) {
        name_to(c, i + 1)
    } else {
        i
    }
}

/// Where the number starting at `i` ends: digits, then `.` and digits if
/// a digit follows the point, then an exponent if a digit follows the `e`
/// or its sign.
pub open spec fn number_end(c: Seq<char>, i: int) -> int {
    let j0 = digits_to(c, i);
    let j1 = if j0 + 1 < c.len() && c[j0] == '.' && is_digit(c[j0 + 1]) {
        digits_to(c, j0 + 1)
    } else {
        j0
    };
    if 0 <= j1 < c.len() && (c[j1] == 'e' || c[j1] == 'E') {
        if j1 + 1 < c.len() && is_digit(c[j1 + 1]) {
            digits_to(c, j1 + 1)
        } else if j1 + 2 < c.len() && (c[j1 + 1] == '+' || c[j1 + 1] == '-') && is_digit(c[j1 + 2]) {
            digits_to(c, j1 + 2)
        } else {
            j1
        }
    } else {
        j1
    }
}

/// `c[i + 1]` is `x`.
pub open spec fn next_is(c: Seq<char>, i: int, x: char) -> bool {
    i + 1 < c.len() && c[i + 1] == x
}

/// The token that starts at character `i`, which is not white space, and
/// where it ends; `None` when no token starts with that character.
pub open spec fn token_at(c: Seq<char>, i: int) -> Option<(Tok, int)> {
    let ch = c[i];
    if is_digit(ch) {
        Some((Tok::Number, number_end(c, i)))
    } else if is_name_start(ch) {
        let j = name_to(c, i + 1);
        Some((word_token(c.subrange(i, j)), j))
    } else if ch == '+' {
        if next_is(c, i, '/') && i + 2 < c.len() && c[i + 2] == '-' {
            Some((Tok::PlusMinus, i + 3))
        } else {
            Some((Tok::Plus, i + 1))
        }
    } else if ch == '-' {
        if next_is(c, i, '>') {
            Some((Tok::Arrow, i + 2))
        } else {
            Some((Tok::Minus, i + 1))
        }
    } else if ch == '=' {
        if next_is(c, i, '=') {
            Some((Tok::EqEq, i + 2))
        } else {
            Some((Tok::Assign, i + 1))
        }
    } else if ch == '<' {
        if next_is(c, i, '=') {
            Some((Tok::Lte, i + 2))
        } else {
            Some((Tok::Lt, i + 1))
        }
    } else if ch == '>' {
        if next_is(c, i, '=') {
            Some((Tok::Gte, i + 2))
        } else {
            Some((Tok::Gt, i + 1))
        }
    } else if ch == '*' {
        Some((Tok::Star, i + 1))
    } else if ch == '/' {
        Some((Tok::Slash, i + 1))
    } else if ch == '%' {
        Some((Tok::Percent, i + 1))
    } else if ch == '^' {
        Some((Tok::Caret, i + 1))
    } else if ch == '(' {
        Some((Tok::LeftParen, i + 1))
    } else if ch == ')' {
        Some((Tok::RightParen, i + 1))
    } else if ch == '[' {
        Some((Tok::LeftBracket, i + 1))
    } else if ch == ']' {
        Some((Tok::RightBracket, i + 1))
    } else if ch == ',' {
        Some((Tok::Comma, i + 1))
    } else if ch == ';' {
        Some((Tok::Semicolon, i + 1))
    } else {
        None
    }
}

/// The tokens of `c` from character `i` on, ending with the end token; or
/// where a character that starts no token stands.
pub open spec fn lex_from(c: Seq<char>, i: int) -> Result<Seq<Token>, int>
    decreases c.len() - i,
{
    if i < 0 {
        Err(i)
    } else if i >= c.len() {
        Ok(seq![Token { tok: Tok::End, start: c.len() as usize, end: c.len() as usize }])
    } else if is_space(c[i]) {
        lex_from(c, i + 1)
    } else {
        match token_at(c, i) {
            Some((tok, e)) => if i < e <= c.len() {
                match lex_from(c, e) {
                    Ok(rest) => Ok(seq![Token { tok, start: i as usize, end: e as usize }] + rest),
                    Err(a) => Err(a),
                }
            } else {
                Err(i)
            },
            None => Err(i),
        }
    }
}

/// The tokens of `c`, or where lexing stops.
pub open spec fn lexed(c: Seq<char>) -> Result<Seq<Token>, int> {
    lex_from(c, 0)
}

/// A run that holds `is_digit` up to `end`, and not at `end`, ends there.
proof fn lemma_digits_to(c: Seq<char>, i: int, end: int)
    requires
        0 <= i <= end <= c.len(),
        forall|k: int| i <= k < end ==> is_digit(c[k]),
        end < c.len() ==> !is_digit(c[end]),
    ensures
        digits_to(c, i) == end,
    decreases end - i,
{
    if i < end {
        lemma_digits_to(c, i + 1, end);
    }
}

/// A run that holds `is_name_part` up to `end`, and not at `end`, ends there.
proof fn lemma_name_to(c: Seq<char>, i: int, end: int)
    requires
        0 <= i <= end <= c.len(),
        forall|k: int| i <= k < end ==> is_name_part(c[k]),
        end < c.len() ==> !is_name_part(c[end]),
    ensures
        name_to(c, i) == end,
    decreases end - i,
{
    if i < end {
        lemma_name_to(c, i + 1, end);
    }
}

/// The token a name-shaped word is: a keyword, or a name.
fn classify(chars: &Vec<char>, start: usize, end: usize) -> (tok: Tok)
    requires
        start <= end <= chars@.len(),
    ensures
        tok != Tok::End,
        ({
            let w = chars@.subrange(start as int, end as int);
            match keyword_token(w) {
                Some(t) => tok == t,
                None => match tok {
                    Tok::Unary(op) => op != UnaryOp::Negate && unary_keyword(op) == w,
                    Tok::Name => forall|o: UnaryOp| o != UnaryOp::Negate ==> unary_keyword(o) != w,
                    _ => false,
                },
            }
        }),
        tok == word_token(chars@.subrange(start as int, end as int)),
{
    if spells(chars, start, end, "var") {
        Tok::Var
    } else if spells(chars, start, end, "return") {
        Tok::Return
    } else if spells(chars, start, end, "sum") {
        Tok::Sum
    } else if spells(chars, start, end, "prod") {
        Tok::Prod
    } else if spells(chars, start, end, "pi") {
        Tok::Pi
    } else if spells(chars, start, end, "e") {
        Tok::Euler
    } else if spells(chars, start, end, "log") {
        Tok::Log
    } else if spells(chars, start, end, "max") {
        Tok::Max
    } else if spells(chars, start, end, "min") {
        Tok::Min
    } else {
        let word = crate::text::string_of_range(chars, start, end);
        match UnaryOp::from_keyword(word.as_str()) {
            Some(op) => Tok::Unary(op),
            None => Tok::Name,
        }
    }
}

/// Where a run of digits starting at `i` ends.
fn digits_end(chars: &Vec<char>, i: usize) -> (end: usize)
    requires
        i <= chars@.len(),
    ensures
        i <= end <= chars@.len(),
        forall|k: int| i <= k < end ==> is_digit(chars@[k]),
        end < chars@.len() ==> !is_digit(chars@[end as int]),
{
    let mut j = i;
    while j < chars.len() && digit(chars[j])
        invariant
            i <= j <= chars@.len(),
            forall|k: int| i <= k < j ==> is_digit(chars@[k]),
        decreases chars@.len() - j,
    {
        j += 1;
    }
    j
}

/// The token that starts at character `i`, which is not white space, and
/// where it ends; `None` when no token starts there.
fn next_token(chars: &Vec<char>, i: usize) -> (r: Option<(Tok, usize)>)
    requires
        i < chars@.len(),
    ensures
        match r {
            Some((tok, end)) => i < end <= chars@.len() && token_at(chars@, i as int) == Some((tok, end as int))
                && tok != Tok::End,
            None => token_at(chars@, i as int) is None,
        },
{
    let n = chars.len();
    let c = chars[i];
    let next: Option<char> = if n - i > 1 {
        Some(chars[i + 1])
    } else {
        None
    };
    let next2: Option<char> = if n - i > 2 {
        Some(chars[i + 2])
    } else {
        None
    };
    let (tok, end): (Tok, usize) = if digit(c) {
        let mut j = digits_end(chars, i);
        assert(j > i);
        proof {
            lemma_digits_to(chars@, i as int, j as int);
        }
        if j < n && n - j > 1 && chars[j] == '.' && digit(chars[j + 1]) {
            let k = j + 1;
            j = digits_end(chars, k);
            proof {
                lemma_digits_to(chars@, k as int, j as int);
            }
        }
        if j < n && (chars[j] == 'e' || chars[j] == 'E') {
            if n - j > 1 && digit(chars[j + 1]) {
                let k = j + 1;
                j = digits_end(chars, k);
                proof {
                    lemma_digits_to(chars@, k as int, j as int);
                }
            } else if n - j > 2 && (chars[j + 1] == '+' || chars[j + 1] == '-') && digit(chars[j + 2]) {
                let k = j + 2;
                j = digits_end(chars, k);
                proof {
                    lemma_digits_to(chars@, k as int, j as int);
                }
            }
        }
        (Tok::Number, j)
    } else if name_start(c) {
        let mut j = i + 1;
        while j < n && name_part(chars[j])
            invariant
                i < j <= n,
                n == chars@.len(),
                forall|k: int| i < k < j ==> is_name_part(chars@[k]),
            decreases n - j,
        {
            j += 1;
        }
        proof {
            lemma_name_to(chars@, i + 1, j as int);
        }
        (classify(chars, i, j), j)
    } else if c == '+' {
        if next == Some('/') && next2 == Some('-') {
            (Tok::PlusMinus, i + 3)
        } else {
            (Tok::Plus, i + 1)
        }
    } else if c == '-' {
        if next == Some('>') {
            (Tok::Arrow, i + 2)
        } else {
            (Tok::Minus, i + 1)
        }
    } else if c == '=' {
        if next == Some('=') {
            (Tok::EqEq, i + 2)
        } else {
            (Tok::Assign, i + 1)
        }
    } else if c == '<' {
        if next == Some('=') {
            (Tok::Lte, i + 2)
        } else {
            (Tok::Lt, i + 1)
        }
    } else if c == '>' {
        if next == Some('=') {
            (Tok::Gte, i + 2)
        } else {
            (Tok::Gt, i + 1)
        }
    } else if c == '*' {
        (Tok::Star, i + 1)
    } else if c == '/' {
        (Tok::Slash, i + 1)
    } else if c == '%' {
        (Tok::Percent, i + 1)
    } else if c == '^' {
        (Tok::Caret, i + 1)
    } else if c == '(' {
        (Tok::LeftParen, i + 1)
    } else if c == ')' {
        (Tok::RightParen, i + 1)
    } else if c == '[' {
        (Tok::LeftBracket, i + 1)
    } else if c == ']' {
        (Tok::RightBracket, i + 1)
    } else if c == ',' {
        (Tok::Comma, i + 1)
    } else if c == ';' {
        (Tok::Semicolon, i + 1)
    } else {
        return None;
    };
    proof {
        assert(token_at(chars@, i as int) == Some((tok, end as int)));
    }
    Some((tok, end))
}

/// Splits `chars` into tokens, or reports the first character that cannot
/// start one, as its offset.
pub fn lex(chars: &Vec<char>) -> (out: Result<Vec<Token>, usize>)
    ensures
        out matches Ok(tokens) ==> well_ordered(tokens@, chars@.len()),
        out matches Err(at) ==> at < chars@.len() && !is_space(chars@[at as int]),
        match out {
            Ok(tokens) => lexed(chars@) == Ok::<Seq<Token>, int>(tokens@),
            Err(at) => lexed(chars@) == Err::<Seq<Token>, int>(at as int),
        },
{
    let mut tokens: Vec<Token> = Vec::new();
    let mut i: usize = 0;
    let n = chars.len();
    while i < n
        invariant
            n == chars@.len(),
            i <= n,
            forall|k: int| 0 <= k < tokens@.len() ==> (#[trigger] tokens@[k]).start < tokens@[k].end <= i
                && tokens@[k].tok != Tok::End,
            forall|a: int, b: int| 0 <= a < b < tokens@.len() ==> (#[trigger] tokens@[a]).end <= (#[trigger] tokens@[b]).start,
            match lex_from(chars@, i as int) {
                Ok(rest) => lexed(chars@) == Ok::<Seq<Token>, int>(tokens@ + rest),
                Err(a) => lexed(chars@) == Err::<Seq<Token>, int>(a),
            },
        decreases n - i,
    {
        let c = chars[i];
        if c == ' ' || c == '\t' || c == '\n' || c == '\r' {
            i += 1;
            continue;
        }
        let start = i;
        let (tok, end): (Tok, usize) = match next_token(chars, i) {
            Some(found) => found,
            None => return Err(i),
        };
        assert(start < end <= n);
        let ghost before = tokens@;
        tokens.push(Token { tok, start, end });
        proof {
            assert forall|a: int, b: int| 0 <= a < b < tokens@.len() implies (#[trigger] tokens@[a]).end
                <= (#[trigger] tokens@[b]).start by {
                if b == tokens@.len() - 1 {
                    assert(before[a].end <= i);
                }
            }
        }
        proof {
            assert(tokens@ == before.push(Token { tok, start, end }));
            match lex_from(chars@, end as int) {
                Ok(rest) => {
                    assert(before + (seq![Token { tok, start, end }] + rest) =~= tokens@ + rest);
                },
                Err(a) => {},
            }
        }
        i = end;
    }
    let ghost before = tokens@;
    tokens.push(Token { tok: Tok::End, start: n, end: n });
    proof {
        assert forall|a: int, b: int| 0 <= a < b < tokens@.len() implies (#[trigger] tokens@[a]).end
            <= (#[trigger] tokens@[b]).start by {
            if b == tokens@.len() - 1 {
                assert(before[a].end <= n);
            }
        }
    }
    proof {
        assert(tokens@ =~= before + lex_from(chars@, n as int)->Ok_0);
    }
    Ok(tokens)
}

} // verus!
