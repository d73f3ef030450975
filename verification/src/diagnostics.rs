//! Source locations and the structured diagnostics built on them.
//!
//! A name ending in `idx` is zero-based; a name ending in `1index` is
//! one-based. Everything reported is zero-based except the `var[i]` subscript.
//!
//! Nothing here stores rendered text: a problem keeps its kind, its source
//! and where in that source it was found.
use vstd::prelude::*;
use crate::text::{
    chars_of, decimal, join_strings, joined, push_char, push_decimal, string_of, string_of_range, views_of,
};

verus! {

/// Half-open range over the source text, measured in Unicode scalar values.
#[derive(Debug, Clone, Copy, PartialEq, Eq, Structural, PartialOrd, Ord, Hash)]
pub struct Span {
    pub start: u32,
    pub end: u32,
}

/// The number of bytes UTF-8 spends on `c`.
pub open spec fn utf8_width(c: char) -> nat {
    if (c as u32) < 0x80 {
        1
    } else if (c as u32) < 0x800 {
        2
    } else if (c as u32) < 0x10000 {
        3
    } else {
        4
    }
}

/// The number of bytes UTF-8 spends on `chars`.
pub open spec fn utf8_len(chars: Seq<char>) -> nat
    decreases chars.len(),
{
    if chars.len() == 0 {
        0
    } else {
        utf8_len(chars.drop_last()) + utf8_width(chars.last())
    }
}

/// How many whole characters of `chars` end at or before byte `byte`: the
/// character offset of `byte`, rounded down to a character boundary and
/// clamped to the end of the text.
pub open spec fn chars_before_byte(chars: Seq<char>, byte: int) -> nat
    decreases chars.len(),
{
    if chars.len() == 0 {
        0
    } else if utf8_len(chars) <= byte {
        chars.len()
    } else {
        chars_before_byte(chars.drop_last(), byte)
    }
}

/// The zero-based line of character offset `idx`: the line breaks before it.
pub open spec fn line_of(chars: Seq<char>, idx: int) -> nat
    decreases idx,
{
    if idx <= 0 || chars.len() == 0 {
        0
    } else if idx > chars.len() {
        line_of(chars, chars.len() as int)
    } else {
        line_of(chars, idx - 1) + if chars[idx - 1] == '\n' { 1nat } else { 0nat }
    }
}

/// The zero-based column of character offset `idx`: the characters between
/// the last line break before it and it.
pub open spec fn column_of(chars: Seq<char>, idx: int) -> nat
    decreases idx,
{
    if idx <= 0 || chars.len() == 0 {
        0
    } else if idx > chars.len() {
        column_of(chars, chars.len() as int)
    } else if chars[idx - 1] == '\n' {
        0
    } else {
        column_of(chars, idx - 1) + 1
    }
}

proof fn lemma_line_column_bounded(chars: Seq<char>, idx: int)
    requires
        0 <= idx <= chars.len(),
    ensures
        line_of(chars, idx) <= idx,
        column_of(chars, idx) <= idx,
    decreases idx,
{
    if idx > 0 {
        lemma_line_column_bounded(chars, idx - 1);
    }
}

impl Span {
    pub fn new(start: u32, end: u32) -> (span: Span)
        ensures
            span.start == start,
            span.end == end,
    {
        Span { start, end }
    }

    /// A span covering nothing: `end <= start`.
    pub fn is_empty(self) -> (empty: bool)
        ensures
            empty == (self.end <= self.start),
    {
        self.end <= self.start
    }

    /// Converts a UTF-8 byte range into character offsets. An offset inside a
    /// character rounds down to its start, and one past the end of `source`
    /// clamps to the end.
    pub fn from_utf8_range(source: &str, bytes: std::ops::Range<usize>) -> (span: Span)
        requires
            source@.len() <= u32::MAX,
        ensures
            span.start == chars_before_byte(source@, bytes.start as int),
            span.end == chars_before_byte(source@, bytes.end as int),
    {
        let chars = crate::text::chars_of(source);
        let start = char_offset_of_byte(&chars, bytes.start);
        let end = char_offset_of_byte(&chars, bytes.end);
        Span::new(start, end)
    }
}

proof fn lemma_utf8_len_push(chars: Seq<char>, c: char)
    ensures
        utf8_len(chars.push(c)) == utf8_len(chars) + utf8_width(c),
{
    assert(chars.push(c).drop_last() =~= chars);
}

proof fn lemma_utf8_len_grows(chars: Seq<char>, k: int)
    requires
        0 <= k <= chars.len(),
    ensures
        utf8_len(chars.take(k)) <= utf8_len(chars),
        k < chars.len() ==> utf8_len(chars.take(k)) < utf8_len(chars),
    decreases chars.len(),
{
    if k < chars.len() {
        assert(chars.drop_last().take(k) =~= chars.take(k));
        lemma_utf8_len_grows(chars.drop_last(), k);
    } else {
        assert(chars.take(k) =~= chars);
    }
}

/// `chars_before_byte` of a text is that of its longest prefix whose bytes
/// still fit.
proof fn lemma_chars_before_byte_prefix(chars: Seq<char>, byte: int, k: int)
    requires
        0 <= k <= chars.len(),
        k == chars.len() || utf8_len(chars.take(k + 1)) > byte,
    ensures
        chars_before_byte(chars, byte) == chars_before_byte(chars.take(k), byte),
    decreases chars.len(),
{
    if k < chars.len() {
        let shorter = chars.drop_last();
        if k + 1 < chars.len() {
            assert(shorter.take(k + 1) =~= chars.take(k + 1));
        }
        assert(shorter.take(k) =~= chars.take(k));
        lemma_utf8_len_grows(chars, k + 1);
        lemma_chars_before_byte_prefix(shorter, byte, k);
    } else {
        assert(chars.take(k) =~= chars);
    }
}

/// The character offset of byte `byte` of the UTF-8 encoding of `chars`,
/// rounded down to a character boundary and clamped to the end.
fn char_offset_of_byte(chars: &Vec<char>, byte: usize) -> (offset: u32)
    requires
        chars@.len() <= u32::MAX,
    ensures
        offset == chars_before_byte(chars@, byte as int),
{
    let mut k: usize = 0;
    let mut used: usize = 0;
    // Walk forward while the next character still ends at or before `byte`.
    while k < chars.len()
        invariant
            k <= chars@.len(),
            chars@.len() <= u32::MAX,
            used == utf8_len(chars@.take(k as int)),
            used <= byte,
            chars_before_byte(chars@.take(k as int), byte as int) == k,
        decreases chars.len() - k,
    {
        let c = chars[k];
        let width: usize = if (c as u32) < 0x80 {
            1
        } else if (c as u32) < 0x800 {
            2
        } else if (c as u32) < 0x10000 {
            3
        } else {
            4
        };
        proof {
            assert(chars@.take(k + 1) =~= chars@.take(k as int).push(c));
            lemma_utf8_len_push(chars@.take(k as int), c);
        }
        if width > byte - used {
            proof {
                lemma_chars_before_byte_prefix(chars@, byte as int, k as int);
            }
            return k as u32;
        }
        used = used + width;
        k += 1;
        proof {
            assert(chars@.take(k as int).drop_last() =~= chars@.take(k - 1));
        }
    }
    proof {
        assert(chars@.take(k as int) =~= chars@);
    }
    k as u32
}

/// Zero-based line and column of a character offset. An offset past the end
/// of `source` reports the end.
pub fn line_col_idx(source: &str, char_idx: u32) -> (position: (u32, u32))
    ensures
        position.0 == line_of(source@, char_idx as int),
        position.1 == column_of(source@, char_idx as int),
{
    let chars = crate::text::chars_of(source);
    let mut line_idx: u32 = 0;
    let mut column_idx: u32 = 0;
    let mut k: usize = 0;
    let limit: usize = if (char_idx as usize) < chars.len() {
        char_idx as usize
    } else {
        chars.len()
    };
    while k < limit
        invariant
            chars@ == source@,
            limit <= chars@.len(),
            limit <= char_idx,
            k <= limit,
            line_idx == line_of(chars@, k as int),
            column_idx == column_of(chars@, k as int),
        decreases limit - k,
    {
        proof {
            lemma_line_column_bounded(chars@, k as int);
        }
        if chars[k] == '\n' {
            line_idx = line_idx + 1;
            column_idx = 0;
        } else {
            column_idx = column_idx + 1;
        }
        k += 1;
    }
    proof {
        if (char_idx as int) > chars@.len() && chars@.len() > 0 {
            assert(line_of(chars@, char_idx as int) == line_of(chars@, chars@.len() as int));
            assert(column_of(chars@, char_idx as int) == column_of(chars@, chars@.len() as int));
        }
    }
    (line_idx, column_idx)
}

/// Which aggregate bound was rejected.
#[derive(Debug, Clone, Copy, PartialEq, Eq, Structural, Hash)]
pub enum BoundKind {
    Lower,
    Upper,
}

/// What went wrong. A numeric value is carried as the bit pattern of the
/// binary64 value it was.
#[derive(Debug, Clone, PartialEq)]
pub enum ProblemKind {
    /// The supplied source text was empty.
    EmptyExpression,
    /// The text is not babel. `from_lexer` separates "that character cannot
    /// start a token" from "that construct is wrong".
    Syntax { message: String, from_lexer: bool },
    /// A construct babel parses but this build cannot lower yet.
    Unsupported { feature: String },
    /// A `sum`/`prod` bound was NaN, infinite, or not a whole number.
    IllegalAggregateBound { bound: BoundKind, value: u64 },
    /// `var[i]` addressed a parameter that does not exist.
    DynamicIndexOutOfBounds { requested_1index: i64, available: usize },
    /// `var[i]` was given something that is not a whole number.
    DynamicIndexNotAnInteger { value: u64 },
    /// A constant subexpression works out to NaN or an infinity.
    NonFiniteConstant { value: u64 },
    /// A checked value worked out to NaN or an infinity while evaluating.
    NonFiniteValue { value: u64 },
}

/// A failure that knows what and where, but not the source it was found in.
#[derive(Debug, Clone, PartialEq)]
pub struct Fault {
    pub kind: ProblemKind,
    pub span: Span,
}

/// One problem, located in the source text it was found in.
#[derive(Debug, Clone, PartialEq)]
pub struct Problem {
    pub kind: ProblemKind,
    /// The full source.
    pub source: String,
    /// The offending text, exactly as located.
    pub span: Span,
    /// Zero-based line index of `span.start`.
    pub line_idx: u32,
    /// Zero-based character index within that line.
    pub column_idx: u32,
}

impl Problem {
    /// Builds a problem, deriving line and column from `span.start`.
    pub fn new(kind: ProblemKind, source: &str, span: Span) -> (problem: Problem)
        ensures
            problem.kind == kind,
            problem.source@ == source@,
            problem.span == span,
            problem.line_idx == line_of(source@, span.start as int),
            problem.column_idx == column_of(source@, span.start as int),
    {
        let (line_idx, column_idx) = line_col_idx(source, span.start);
        Problem { kind, source: source.to_string(), span, line_idx, column_idx }
    }
}

/// Compilation produced no evaluable expression.
#[derive(Debug, Clone, PartialEq)]
pub struct CompilationFailure {
    pub source: String,
    pub problems: Vec<Problem>,
}

/// An expression could not be bound to a schema.
#[derive(Debug, Clone, PartialEq, Eq)]
pub struct BindError {
    /// Symbols the expression references that the schema does not supply.
    pub missing: Vec<String>,
}


/// A problem raised while evaluating, with the state that produced it:
/// which sample of a batch, when there was a batch, and the bound schema's
/// values (as bits) by name.
#[derive(Debug, Clone, PartialEq)]
pub struct RuntimeProblem {
    pub problem: Problem,
    pub sample: Option<usize>,
    /// Local bindings in scope at the failure: the tape keeps no names for
    /// them, so this is empty.
    pub locals: Vec<(String, u64)>,
    pub parameters: Vec<(String, u64)>,
}

/// Evaluation failed.
#[derive(Debug, Clone, PartialEq)]
pub enum EvalError {
    /// The expression referenced state the schema does not provide.
    Bind(BindError),
    /// A problem arose while evaluating.
    Runtime(Box<RuntimeProblem>),
    /// The rows handed over do not match the bound schema's width.
    RowWidthMismatch { expected: usize, actual: usize },
    /// The tape would need more registers than it can number.
    TooLarge,
    /// An aggregate whose bounds are known only at run time is left, which
    /// the tape does not lower.
    RuntimeAggregate,
}

// ------------------------------------------------------------ rendering

/// `v` in decimal, with a `-` in front when it is negative.
pub open spec fn signed_decimal(v: int) -> Seq<char> {
    if v < 0 {
        seq!['-'] + decimal((-v) as nat)
    } else {
        decimal(v as nat)
    }
}

fn push_signed_decimal(s: &mut String, v: i64)
    ensures
        final(s)@ == old(s)@ + signed_decimal(v as int),
{
    if v < 0 {
        push_char(s, '-');
        let magnitude: u64 = if v == i64::MIN {
            9223372036854775808u64
        } else {
            (-v) as u64
        };
        push_decimal(s, magnitude);
    } else {
        push_decimal(s, v as u64);
    }
}

/// The English ordinal suffix of a count: `th` when the count ends in 11, 12
/// or 13, else `st`, `nd` or `rd` after a last digit of 1, 2 or 3, and `th`
/// after any other.
pub open spec fn ordinal_suffix(n: nat) -> Seq<char> {
    if 11 <= n % 100 <= 13 {
        "th"@
    } else if n % 10 == 1 {
        "st"@
    } else if n % 10 == 2 {
        "nd"@
    } else if n % 10 == 3 {
        "rd"@
    } else {
        "th"@
    }
}

fn ordinal_suffix_of(n: u64) -> (suffix: &'static str)
    ensures
        suffix@ == ordinal_suffix(n as nat),
{
    let hundreds = n % 100;
    let tens = n % 10;
    if 11 <= hundreds && hundreds <= 13 {
        "th"
    } else if tens == 1 {
        "st"
    } else if tens == 2 {
        "nd"
    } else if tens == 3 {
        "rd"
    } else {
        "th"
    }
}

/// `c`, `n` times over.
pub open spec fn repeated(c: char, n: nat) -> Seq<char> {
    Seq::new(n, |i: int| c)
}

fn push_repeated(s: &mut String, c: char, n: usize)
    ensures
        final(s)@ == old(s)@ + repeated(c, n as nat),
{
    let mut k: usize = 0;
    while k < n
        invariant
            k <= n,
            s@ == old(s)@ + repeated(c, k as nat),
        decreases n - k,
    {
        push_char(s, c);
        k += 1;
        proof {
            assert(s@ =~= old(s)@ + repeated(c, k as nat));
        }
    }
}

impl BoundKind {
    /// The bound's name: `lower` or `upper`.
    pub open spec fn spec_text(self) -> Seq<char> {
        match self {
            BoundKind::Lower => "lower"@,
            BoundKind::Upper => "upper"@,
        }
    }

    /// [`BoundKind::spec_text`].
    pub fn render(self) -> (text: String)
        ensures
            text@ == self.spec_text(),
    {
        match self {
            BoundKind::Lower => "lower".to_string(),
            BoundKind::Upper => "upper".to_string(),
        }
    }
}

/// The magnitude of `v`.
pub open spec fn magnitude(v: int) -> nat {
    if v < 0 {
        (-v) as nat
    } else {
        v as nat
    }
}

impl ProblemKind {
    /// Whether the kind can be put into words: a `var[i]` subscript whose
    /// magnitude does not fit in `i64` cannot.
    pub open spec fn renderable(self) -> bool {
        !(self matches ProblemKind::DynamicIndexOutOfBounds { requested_1index, .. } && requested_1index
            == i64::MIN)
    }

    /// The clause after `Error in '…': `.
    pub open spec fn summary_text(self) -> Seq<char> {
        match self {
            ProblemKind::EmptyExpression => "expression is empty"@,
            ProblemKind::Syntax { .. } => "syntax error"@,
            ProblemKind::Unsupported { feature } => feature@ + " is not supported yet"@,
            ProblemKind::IllegalAggregateBound { bound, .. } => "illegal "@ + bound.spec_text()
                + " bound value"@,
            ProblemKind::DynamicIndexOutOfBounds { requested_1index, available } => "attempted to access 'var["@
                + signed_decimal(requested_1index as int) + "]'                      (the "@ + signed_decimal(
                requested_1index as int,
            ) + ordinal_suffix(magnitude(requested_1index as int))
                + " parameter)                      when only "@ + decimal(available as nat) + " exist"@,
            ProblemKind::DynamicIndexNotAnInteger { .. } => "attempted to use a non-integer as an index"@,
            ProblemKind::NonFiniteConstant { .. } => "constant expression is not a finite number"@,
            ProblemKind::NonFiniteValue { .. } => "value is not a finite number"@,
        }
    }

    /// The note under the offending text; empty when there is nothing to add.
    /// `value_text` is how the host writes the binary64 value a kind carries
    /// (Rust's `Display` for `f64`); the kinds without one ignore it.
    pub open spec fn annotation_text(self, value_text: Seq<char>) -> Seq<char> {
        match self {
            ProblemKind::EmptyExpression => Seq::empty(),
            ProblemKind::Unsupported { .. } => Seq::empty(),
            ProblemKind::Syntax { message, .. } => message@,
            ProblemKind::DynamicIndexOutOfBounds { requested_1index, .. } => "evaluates to "@ + signed_decimal(
                requested_1index as int,
            ),
            ProblemKind::IllegalAggregateBound { .. } => "evaluates to "@ + value_text,
            ProblemKind::DynamicIndexNotAnInteger { .. } => "evaluates to "@ + value_text,
            ProblemKind::NonFiniteConstant { .. } => "evaluates to "@ + value_text,
            ProblemKind::NonFiniteValue { .. } => "evaluates to "@ + value_text,
        }
    }

    /// [`ProblemKind::summary_text`].
    pub fn summary(&self) -> (text: String)
        requires
            self.renderable(),
        ensures
            text@ == self.summary_text(),
    {
        match self {
            ProblemKind::EmptyExpression => "expression is empty".to_string(),
            ProblemKind::Syntax { .. } => "syntax error".to_string(),
            ProblemKind::Unsupported { feature } => {
                let mut text = feature.clone();
                text.append(" is not supported yet");
                text
            },
            ProblemKind::IllegalAggregateBound { bound, .. } => {
                let mut text = "illegal ".to_string();
                let name = bound.render();
                text.append(name.as_str());
                text.append(" bound value");
                text
            },
            ProblemKind::DynamicIndexOutOfBounds { requested_1index, available } => {
                let r = *requested_1index;
                let mut text = "attempted to access 'var[".to_string();
                push_signed_decimal(&mut text, r);
                text.append("]'                      (the ");
                push_signed_decimal(&mut text, r);
                let size: u64 = if r < 0 {
                    (-r) as u64
                } else {
                    r as u64
                };
                text.append(ordinal_suffix_of(size));
                text.append(" parameter)                      when only ");
                push_decimal(&mut text, *available as u64);
                text.append(" exist");
                text
            },
            ProblemKind::DynamicIndexNotAnInteger { .. } => "attempted to use a non-integer as an index".to_string(),
            ProblemKind::NonFiniteConstant { .. } => "constant expression is not a finite number".to_string(),
            ProblemKind::NonFiniteValue { .. } => "value is not a finite number".to_string(),
        }
    }

    /// [`ProblemKind::annotation_text`].
    pub fn annotation(&self, value_text: &str) -> (text: String)
        ensures
            text@ == self.annotation_text(value_text@),
    {
        match self {
            ProblemKind::EmptyExpression => String::new(),
            ProblemKind::Unsupported { .. } => String::new(),
            ProblemKind::Syntax { message, .. } => message.clone(),
            ProblemKind::DynamicIndexOutOfBounds { requested_1index, .. } => {
                let mut text = "evaluates to ".to_string();
                push_signed_decimal(&mut text, *requested_1index);
                text
            },
            _ => {
                let mut text = "evaluates to ".to_string();
                text.append(value_text);
                text
            },
        }
    }
}

/// The characters of `chars` that `span` covers, clamped to the text.
pub open spec fn covered(chars: Seq<char>, span: Span) -> Seq<char> {
    let lo = if span.start <= chars.len() {
        span.start as int
    } else {
        chars.len() as int
    };
    let hi = if span.end <= span.start {
        lo
    } else if span.end <= chars.len() {
        span.end as int
    } else {
        chars.len() as int
    };
    chars.subrange(lo, hi)
}

/// What lies between the line feeds of `chars`, in order; the last piece is
/// what follows the last line feed, empty when the text ends in one.
pub open spec fn pieces(chars: Seq<char>) -> Seq<Seq<char>>
    decreases chars.len(),
{
    if chars.len() == 0 {
        seq![Seq::empty()]
    } else {
        let p = pieces(chars.drop_last());
        if chars.last() == '\n' {
            p.push(Seq::empty())
        } else {
            p.update(p.len() - 1, p.last().push(chars.last()))
        }
    }
}

proof fn lemma_pieces_nonempty(chars: Seq<char>)
    ensures
        pieces(chars).len() >= 1,
    decreases chars.len(),
{
    if chars.len() > 0 {
        lemma_pieces_nonempty(chars.drop_last());
    }
}

/// `line` without the carriage return that may end it.
pub open spec fn without_return(line: Seq<char>) -> Seq<char> {
    if line.len() > 0 && line.last() == '\r' {
        line.drop_last()
    } else {
        line
    }
}

/// The lines of `chars` as `str::lines` gives them: split at each line feed,
/// a carriage return right before a line feed dropped, and no line after a
/// final line feed.
pub open spec fn lines_of(chars: Seq<char>) -> Seq<Seq<char>> {
    let p = pieces(chars);
    let ended = Seq::new((p.len() - 1) as nat, |i: int| without_return(p[i]));
    if p.last().len() == 0 {
        ended
    } else {
        ended.push(p.last())
    }
}

/// [`lines_of`].
fn split_lines(chars: &Vec<char>) -> (lines: Vec<Vec<char>>)
    ensures
        lines@.len() == lines_of(chars@).len(),
        forall|i: int| 0 <= i < lines@.len() ==> #[trigger] lines@[i]@ == lines_of(chars@)[i],
{
    let mut lines: Vec<Vec<char>> = Vec::new();
    let mut current: Vec<char> = Vec::new();
    let mut k: usize = 0;
    while k < chars.len()
        invariant
            k <= chars@.len(),
            pieces(chars@.take(k as int)).len() == lines@.len() + 1,
            current@ == pieces(chars@.take(k as int)).last(),
            forall|i: int|
                0 <= i < lines@.len() ==> #[trigger] lines@[i]@ == without_return(
                    pieces(chars@.take(k as int))[i],
                ),
        decreases chars@.len() - k,
    {
        let c = chars[k];
        proof {
            assert(chars@.take(k + 1).drop_last() =~= chars@.take(k as int));
            lemma_pieces_nonempty(chars@.take(k as int));
        }
        if c == '\n' {
            let n = current.len();
            if n > 0 && current[n - 1] == '\r' {
                current.pop();
            }
            lines.push(current);
            current = Vec::new();
        } else {
            current.push(c);
        }
        k += 1;
        proof {
            let p = pieces(chars@.take(k as int));
            assert forall|i: int| 0 <= i < lines@.len() implies #[trigger] lines@[i]@ == without_return(p[i]) by {}
            assert(current@ =~= p.last());
        }
    }
    proof {
        assert(chars@.take(chars@.len() as int) =~= chars@);
        lemma_pieces_nonempty(chars@);
    }
    if current.len() > 0 {
        lines.push(current);
    }
    proof {
        let p = pieces(chars@);
        let ended = Seq::new((p.len() - 1) as nat, |i: int| without_return(p[i]));
        assert forall|i: int| 0 <= i < lines@.len() implies #[trigger] lines@[i]@ == lines_of(chars@)[i] by {
            if i < ended.len() {
                assert(lines_of(chars@)[i] == ended[i]);
            }
        }
    }
    lines
}

/// The mark under the offending text on a line of `len` characters: spaces
/// up to the column (the last character when the column is past the end of
/// a non-empty line), `width` tildes, and the note after a space when there
/// is one.
pub open spec fn underline(column: nat, width: nat, len: nat, note: Seq<char>) -> Seq<char> {
    let at = if column >= len && len > 0 {
        (len - 1) as nat
    } else {
        column
    };
    let mark = repeated(' ', at) + repeated('~', width);
    if note.len() == 0 {
        mark
    } else {
        mark + seq![' '] + note
    }
}

/// Each of `lines` after a line feed, with the mark after line `line_idx`.
pub open spec fn block_body(lines: Seq<Seq<char>>, line_idx: nat, column: nat, width: nat, note: Seq<char>) -> Seq<
    char,
>
    decreases lines.len(),
{
    if lines.len() == 0 {
        Seq::empty()
    } else {
        let k = (lines.len() - 1) as nat;
        block_body(lines.drop_last(), line_idx, column, width, note) + seq!['\n'] + lines.last() + if k
            == line_idx {
            seq!['\n'] + underline(column, width, lines.last().len(), note)
        } else {
            Seq::empty()
        }
    }
}

/// Appends a line feed and `line`, then, when `marked`, a line feed and the
/// mark under it.
fn push_block_line(text: &mut String, line: &Vec<char>, marked: bool, column: usize, width: usize, note: &String)
    ensures
        final(text)@ == old(text)@ + seq!['\n'] + line@ + if marked {
            seq!['\n'] + underline(column as nat, width as nat, line@.len(), note@)
        } else {
            Seq::empty()
        },
{
    push_char(text, '\n');
    let shown = string_of(line);
    text.append(shown.as_str());
    if marked {
        let len = line.len();
        let at: usize = if column >= len && len > 0 {
            len - 1
        } else {
            column
        };
        push_char(text, '\n');
        push_repeated(text, ' ', at);
        push_repeated(text, '~', width);
        if note.as_str().unicode_len() > 0 {
            push_char(text, ' ');
            text.append(note.as_str());
        }
        proof {
            assert(text@ =~= old(text)@ + seq!['\n'] + line@ + (seq!['\n'] + underline(
                column as nat,
                width as nat,
                line@.len(),
                note@,
            )));
        }
    } else {
        proof {
            assert(text@ =~= old(text)@ + seq!['\n'] + line@ + Seq::<char>::empty());
        }
    }
}

impl Problem {
    /// The offending text, or `end of expression` for a span that covers
    /// nothing.
    pub open spec fn subject(self) -> Seq<char> {
        let text = covered(self.source@, self.span);
        if text.len() == 0 {
            "end of expression"@
        } else {
            text
        }
    }

    /// The one-line form: the summary, then where, then the note.
    pub open spec fn spec_rendered(self, value_text: Seq<char>) -> Seq<char> {
        let summary = self.kind.summary_text();
        let note = self.kind.annotation_text(value_text);
        if self.source@.len() == 0 {
            summary
        } else {
            summary + " at '"@ + self.subject() + "'"@ + if note.len() == 0 {
                Seq::empty()
            } else {
                ": "@ + note
            }
        }
    }

    /// The block form: a heading, then the source line by line with the
    /// offending text marked under its line.
    pub open spec fn spec_rendered_block(self, value_text: Seq<char>) -> Seq<char> {
        let width: nat = if self.span.end > self.span.start {
            (self.span.end - self.span.start) as nat
        } else {
            1
        };
        "Error in '"@ + self.subject() + "': "@ + self.kind.summary_text() + "."@ + block_body(
            lines_of(self.source@),
            self.line_idx as nat,
            self.column_idx as nat,
            width,
            self.kind.annotation_text(value_text),
        )
    }

    /// The offending source text; empty for a span that covers nothing.
    pub fn text(&self) -> (text: String)
        ensures
            text@ == covered(self.source@, self.span),
    {
        let chars = chars_of(self.source.as_str());
        let len = chars.len();
        let lo: usize = if (self.span.start as usize) <= len {
            self.span.start as usize
        } else {
            len
        };
        let hi: usize = if self.span.end <= self.span.start {
            lo
        } else if (self.span.end as usize) <= len {
            self.span.end as usize
        } else {
            len
        };
        string_of_range(&chars, lo, hi)
    }

    fn subject_of(&self) -> (subject: String)
        ensures
            subject@ == self.subject(),
    {
        let text = self.text();
        if text.as_str().unicode_len() == 0 {
            "end of expression".to_string()
        } else {
            text
        }
    }

    /// [`Problem::spec_rendered`]. `value_text` is how the host writes the
    /// value the kind carries, if it carries one.
    pub fn render(&self, value_text: &str) -> (text: String)
        requires
            self.kind.renderable(),
        ensures
            text@ == self.spec_rendered(value_text@),
    {
        let summary = self.kind.summary();
        if self.source.as_str().unicode_len() == 0 {
            return summary;
        }
        let note = self.kind.annotation(value_text);
        let mut text = summary;
        text.append(" at '");
        text.append(self.subject_of().as_str());
        text.append("'");
        if note.as_str().unicode_len() > 0 {
            text.append(": ");
            text.append(note.as_str());
        }
        text
    }

    /// [`Problem::spec_rendered_block`].
    pub fn render_block(&self, value_text: &str) -> (text: String)
        requires
            self.kind.renderable(),
        ensures
            text@ == self.spec_rendered_block(value_text@),
    {
        let note = self.kind.annotation(value_text);
        let width: u32 = if self.span.end > self.span.start {
            self.span.end - self.span.start
        } else {
            1
        };
        let mut text = "Error in '".to_string();
        text.append(self.subject_of().as_str());
        text.append("': ");
        text.append(self.kind.summary().as_str());
        text.append(".");
        let ghost head = text@;
        let chars = chars_of(self.source.as_str());
        let lines = split_lines(&chars);
        let mut k: usize = 0;
        while k < lines.len()
            invariant
                k <= lines@.len(),
                chars@ == self.source@,
                lines@.len() == lines_of(chars@).len(),
                forall|i: int| 0 <= i < lines@.len() ==> #[trigger] lines@[i]@ == lines_of(chars@)[i],
                note@ == self.kind.annotation_text(value_text@),
                width as nat == (if self.span.end > self.span.start {
                    (self.span.end - self.span.start) as nat
                } else {
                    1nat
                }),
                text@ == head + block_body(
                    lines_of(chars@).take(k as int),
                    self.line_idx as nat,
                    self.column_idx as nat,
                    width as nat,
                    note@,
                ),
            decreases lines@.len() - k,
        {
            let marked = k == self.line_idx as usize;
            push_block_line(&mut text, &lines[k], marked, self.column_idx as usize, width as usize, &note);
            proof {
                let all = lines_of(chars@);
                assert(all.take(k + 1).drop_last() =~= all.take(k as int));
                assert(all.take(k + 1).last() == lines@[k as int]@);
                assert(text@ =~= head + block_body(
                    all.take(k + 1),
                    self.line_idx as nat,
                    self.column_idx as nat,
                    width as nat,
                    note@,
                ));
            }
            k += 1;
        }
        proof {
            assert(lines_of(chars@).take(lines@.len() as int) =~= lines_of(chars@));
        }
        text
    }
}

impl CompilationFailure {
    /// Every problem renderable, with one value text for each.
    pub open spec fn renderable_with(self, value_texts: Seq<String>) -> bool {
        &&& value_texts.len() == self.problems@.len()
        &&& forall|i: int| 0 <= i < self.problems@.len() ==> (#[trigger] self.problems@[i]).kind.renderable()
    }

    /// Each problem in its one-line form, one per line. `value_texts[i]` is
    /// the value text of problem `i`.
    pub fn render(&self, value_texts: &[String]) -> (text: String)
        requires
            self.renderable_with(value_texts@),
        ensures
            text@ == joined(
                Seq::new(
                    self.problems@.len(),
                    |i: int| self.problems@[i].spec_rendered(value_texts@[i]@),
                ),
                "\n"@,
            ),
    {
        let mut parts: Vec<String> = Vec::new();
        let mut i: usize = 0;
        while i < self.problems.len()
            invariant
                i <= self.problems@.len(),
                self.renderable_with(value_texts@),
                parts@.len() == i,
                forall|j: int| 0 <= j < i ==> #[trigger] parts@[j]@ == self.problems@[j].spec_rendered(
                    value_texts@[j]@,
                ),
            decreases self.problems@.len() - i,
        {
            parts.push(self.problems[i].render(value_texts[i].as_str()));
            i += 1;
        }
        let text = join_strings(parts.as_slice(), "\n");
        proof {
            assert(views_of(parts@) =~= Seq::new(
                self.problems@.len(),
                |i: int| self.problems@[i].spec_rendered(value_texts@[i]@),
            ));
        }
        text
    }

    /// Each problem in its block form, with a blank line between blocks.
    pub fn render_block(&self, value_texts: &[String]) -> (text: String)
        requires
            self.renderable_with(value_texts@),
        ensures
            text@ == joined(
                Seq::new(
                    self.problems@.len(),
                    |i: int| self.problems@[i].spec_rendered_block(value_texts@[i]@),
                ),
                "\n\n"@,
            ),
    {
        let mut parts: Vec<String> = Vec::new();
        let mut i: usize = 0;
        while i < self.problems.len()
            invariant
                i <= self.problems@.len(),
                self.renderable_with(value_texts@),
                parts@.len() == i,
                forall|j: int| 0 <= j < i ==> #[trigger] parts@[j]@ == self.problems@[j].spec_rendered_block(
                    value_texts@[j]@,
                ),
            decreases self.problems@.len() - i,
        {
            parts.push(self.problems[i].render_block(value_texts[i].as_str()));
            i += 1;
        }
        let text = join_strings(parts.as_slice(), "\n\n");
        proof {
            assert(views_of(parts@) =~= Seq::new(
                self.problems@.len(),
                |i: int| self.problems@[i].spec_rendered_block(value_texts@[i]@),
            ));
        }
        text
    }
}

impl BindError {
    /// `missing value(s) for ` and the missing names, comma separated.
    pub fn render(&self) -> (text: String)
        ensures
            text@ == "missing value(s) for "@ + joined(views_of(self.missing@), ", "@),
    {
        let mut text = "missing value(s) for ".to_string();
        text.append(join_strings(self.missing.as_slice(), ", ").as_str());
        text
    }
}

} // verus!
