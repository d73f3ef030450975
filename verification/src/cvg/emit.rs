//! Rendering constraints as an SMT-LIB2 document.
//!
//! A pure function from constraints to text, with no solver attached. Every
//! constraint is a residual satisfied when `<= 0` once the boolean rewrite
//! has run, so each asserts as `(<= residual 0.0)`; the rewrite's `+ EPSILON`
//! marker for a strict comparison becomes the relation `<` instead, since
//! real arithmetic has no rounding for the nudge to survive.
//!
//! Division and `%` pin their divisor away from zero, since SMT-LIB leaves
//! `x/0` unspecified and a solver would otherwise satisfy a constraint
//! through it. `sqrt` and `cbrt` become auxiliary variables: there is no
//! root in the logic, but `y >= 0 and y*y = x` says the same.
//!
//! Nothing here writes a parenthesis: terms are [`Sexp`] values and lines are
//! a [`Line`] each, so neither an unbalanced term nor a comment that eats the
//! command after it can be built. What the logic cannot express (the
//! transcendentals, `log`, a power with a non-integer exponent) is reported
//! in [`Document::untranslated`] rather than dropped.
//!
//! Literals are written as the shortest decimal that reads back as the same
//! binary64 value. Producing that text is floating-point formatting, which
//! this library leaves to its host: the host supplies the text of every
//! magnitude [`literal_magnitudes`] lists.
use vstd::prelude::*;

use crate::ast::{
    clone_block, AggregateKind, AssignmentModel, BinaryOp, Block, BlockModel, Expr, ExprModel, Kind, KindModel, Program,
    UnaryOp,
};
use crate::frontend::rewrite::{rewrite_booleans, rewritten_block, EPSILON_BITS};
use crate::Ast;
use crate::binary64::{exponent_field, index_of, is_negative, to_index, SIGN_BIT};
use crate::cvg::sexp::{rendered, Sexp, SexpModel};
use crate::cvg::InputVariable;
use crate::text::{chars_of, decimal, parsed_usize, push_char, push_decimal, parse_usize};
use vstd::string::StringExecFns;

verus! {

// ------------------------------------------------------------ terms

/// `(head arguments...)`.
pub open spec fn call_model(head: Seq<char>, arguments: Seq<SexpModel>) -> SexpModel {
    SexpModel::List(seq![SexpModel::Atom(head)] + arguments)
}

/// An SMT-LIB quoted symbol.
pub open spec fn symbol_model(name: Seq<char>) -> SexpModel {
    SexpModel::Atom(seq!['|'] + name + seq!['|'])
}

pub open spec fn atom(text: Seq<char>) -> SexpModel {
    SexpModel::Atom(text)
}

fn call0(head: &str) -> (s: Sexp)
    ensures
        s@ == call_model(head@, seq![]),
{
    let s = Sexp::call(head, Vec::new());
    proof {
        assert(s@->List_0 =~= seq![SexpModel::Atom(head@)] + Seq::<SexpModel>::empty());
    }
    s
}

fn call1(head: &str, a: Sexp) -> (s: Sexp)
    ensures
        s@ == call_model(head@, seq![a@]),
{
    let ghost m = a@;
    let s = Sexp::call(head, vec![a]);
    proof {
        assert(s@->List_0 =~= seq![SexpModel::Atom(head@)] + seq![m]);
    }
    s
}

fn call2(head: &str, a: Sexp, b: Sexp) -> (s: Sexp)
    ensures
        s@ == call_model(head@, seq![a@, b@]),
{
    let ghost (ma, mb) = (a@, b@);
    let s = Sexp::call(head, vec![a, b]);
    proof {
        assert(s@->List_0 =~= seq![SexpModel::Atom(head@)] + seq![ma, mb]);
    }
    s
}

fn call3(head: &str, a: Sexp, b: Sexp, c: Sexp) -> (s: Sexp)
    ensures
        s@ == call_model(head@, seq![a@, b@, c@]),
{
    let ghost (ma, mb, mc) = (a@, b@, c@);
    let s = Sexp::call(head, vec![a, b, c]);
    proof {
        assert(s@->List_0 =~= seq![SexpModel::Atom(head@)] + seq![ma, mb, mc]);
    }
    s
}

fn list1(a: Sexp) -> (s: Sexp)
    ensures
        s@ == SexpModel::List(seq![a@]),
{
    let ghost m = a@;
    let s = Sexp::list(vec![a]);
    proof {
        assert(s@->List_0 =~= seq![m]);
    }
    s
}

fn list2(a: Sexp, b: Sexp) -> (s: Sexp)
    ensures
        s@ == SexpModel::List(seq![a@, b@]),
{
    let ghost (ma, mb) = (a@, b@);
    let s = Sexp::list(vec![a, b]);
    proof {
        assert(s@->List_0 =~= seq![ma, mb]);
    }
    s
}

// ------------------------------------------------------------ the logic

/// Whether `c` is white space: the characters Unicode gives the `White_Space`
/// property, which is what `char::is_whitespace` tests.
pub open spec fn is_white(c: char) -> bool {
    ||| '\u{9}' <= c <= '\u{d}'
    ||| c == ' '
    ||| c == '\u{85}'
    ||| c == '\u{a0}'
    ||| c == '\u{1680}'
    ||| '\u{2000}' <= c <= '\u{200a}'
    ||| c == '\u{2028}'
    ||| c == '\u{2029}'
    ||| c == '\u{202f}'
    ||| c == '\u{205f}'
    ||| c == '\u{3000}'
}

fn white(c: char) -> (b: bool)
    ensures
        b == is_white(c),
{
    ('\u{9}' <= c && c <= '\u{d}') || c == ' ' || c == '\u{85}' || c == '\u{a0}' || c == '\u{1680}' || ('\u{2000}' <= c
        && c <= '\u{200a}') || c == '\u{2028}' || c == '\u{2029}' || c == '\u{202f}' || c == '\u{205f}' || c == '\u{3000}'
}

/// How many white characters `s` starts with.
pub open spec fn leading_white(s: Seq<char>) -> nat
    decreases s.len(),
{
    if s.len() > 0 && is_white(s[0]) {
        1 + leading_white(s.drop_first())
    } else {
        0
    }
}

/// How many white characters `s` ends with.
pub open spec fn trailing_white(s: Seq<char>) -> nat
    decreases s.len(),
{
    if s.len() > 0 && is_white(s.last()) {
        1 + trailing_white(s.drop_last())
    } else {
        0
    }
}

/// `s` without its leading and trailing white space: `str::trim`.
pub open spec fn trimmed(s: Seq<char>) -> Seq<char> {
    let rest = s.subrange(leading_white(s) as int, s.len() as int);
    rest.subrange(0, rest.len() - trailing_white(rest))
}

proof fn lemma_leading_white_bound(s: Seq<char>)
    ensures
        leading_white(s) <= s.len(),
    decreases s.len(),
{
    if s.len() > 0 && is_white(s[0]) {
        lemma_leading_white_bound(s.drop_first());
    }
}

proof fn lemma_trailing_white_bound(s: Seq<char>)
    ensures
        trailing_white(s) <= s.len(),
    decreases s.len(),
{
    if s.len() > 0 && is_white(s.last()) {
        lemma_trailing_white_bound(s.drop_last());
    }
}

/// [`trimmed`].
pub(crate) fn trim(text: &str) -> (t: String)
    ensures
        t@ == trimmed(text@),
{
    let chars = chars_of(text);
    let ghost s = text@;
    proof {
        assert(s.subrange(0, s.len() as int) =~= s);
    }
    let mut a: usize = 0;
    while a < chars.len() && white(chars[a])
        invariant
            chars@ == s,
            a <= chars@.len(),
            leading_white(s) == a + leading_white(s.subrange(a as int, s.len() as int)),
        decreases chars@.len() - a,
    {
        proof {
            assert(s.subrange(a as int, s.len() as int).drop_first() =~= s.subrange(a + 1, s.len() as int));
        }
        a += 1;
    }
    proof {
        assert(leading_white(s.subrange(a as int, s.len() as int)) == 0);
    }
    let ghost rest = s.subrange(a as int, s.len() as int);
    let mut b: usize = chars.len();
    while b > a && white(chars[b - 1])
        invariant
            chars@ == s,
            a <= b <= chars@.len(),
            rest == s.subrange(a as int, s.len() as int),
            trailing_white(rest) == (s.len() - b) + trailing_white(s.subrange(a as int, b as int)),
        decreases b - a,
    {
        proof {
            assert(s.subrange(a as int, b as int).drop_last() =~= s.subrange(a as int, b - 1));
        }
        b -= 1;
    }
    proof {
        assert(trailing_white(s.subrange(a as int, b as int)) == 0);
        assert(rest.subrange(0, rest.len() - trailing_white(rest)) =~= s.subrange(a as int, b as int));
    }
    crate::text::string_of_range(&chars, a, b)
}

/// Which SMT-LIB logic a document declares. Unvalidated on purpose: which
/// logics a solver accepts is the solver's business, and a name it rejects
/// surfaces as a parse failure.
#[derive(Debug, Clone, PartialEq, Eq)]
pub struct SmtLogic(String);

/// The logic a document declares unless told otherwise: the prelude reaches
/// for `to_int` and `to_real`, which only the mixed theory has.
pub open spec fn default_logic() -> Seq<char> {
    "QF_NIRA"@
}

impl SmtLogic {
    /// The environment variable a host consults for the default.
    pub const VARIABLE: &'static str = "BABEL_SMT_LOGIC";

    pub closed spec fn spec_name(&self) -> Seq<char> {
        self.0@
    }

    /// A logic by name.
    pub fn named(name: &str) -> (logic: SmtLogic)
        ensures
            logic.spec_name() == name@,
    {
        SmtLogic(name.to_string())
    }

    /// The default, given what the environment said: the value trimmed, or
    /// [`default_logic`] when it is absent or blank.
    pub fn from_variable(value: Option<&str>) -> (logic: SmtLogic)
        ensures
            logic.spec_name() == (match value {
                Some(v) => if trimmed(v@).len() > 0 {
                    trimmed(v@)
                } else {
                    default_logic()
                },
                None => default_logic(),
            }),
    {
        match value {
            Some(v) => {
                let name = trim(v);
                if name.unicode_len() > 0 {
                    SmtLogic(name)
                } else {
                    SmtLogic("QF_NIRA".to_string())
                }
            },
            None => SmtLogic("QF_NIRA".to_string()),
        }
    }

    /// The logic's name.
    pub fn to_text(&self) -> (text: String)
        ensures
            text@ == self.spec_name(),
    {
        self.0.clone()
    }
}

// ------------------------------------------------------------ scripts

/// One line of a document.
enum Line {
    Command(Sexp),
    Comment(String),
}

/// The model of a line.
pub ghost enum LineModel {
    Command(SexpModel),
    Comment(Seq<char>),
}

spec fn line_model(l: Line) -> LineModel {
    match l {
        Line::Command(s) => LineModel::Command(s@),
        Line::Comment(t) => LineModel::Comment(t@),
    }
}

/// The text of a line: a command rendered, or `; ` and the comment, then a
/// newline either way.
pub open spec fn line_text(l: LineModel) -> Seq<char> {
    match l {
        LineModel::Command(s) => rendered(s) + seq!['\n'],
        LineModel::Comment(t) => seq![';', ' '] + t + seq!['\n'],
    }
}

/// The text of a run of lines.
pub open spec fn script_text(lines: Seq<LineModel>) -> Seq<char>
    decreases lines.len(),
{
    if lines.len() == 0 {
        Seq::empty()
    } else {
        script_text(lines.drop_last()) + line_text(lines.last())
    }
}

/// The maximal runs of non-white characters of `s`, in order.
pub open spec fn words(s: Seq<char>) -> Seq<Seq<char>>
    decreases s.len(),
{
    if s.len() == 0 {
        Seq::empty()
    } else {
        let before = words(s.drop_last());
        let c = s.last();
        if is_white(c) {
            before
        } else if s.len() >= 2 && !is_white(s[s.len() - 2]) {
            before.update(before.len() - 1, before.last().push(c))
        } else {
            before.push(seq![c])
        }
    }
}

/// Words separated by single spaces.
pub open spec fn spaced(ws: Seq<Seq<char>>) -> Seq<char>
    decreases ws.len(),
{
    if ws.len() == 0 {
        Seq::empty()
    } else if ws.len() == 1 {
        ws[0]
    } else {
        spaced(ws.drop_last()) + seq![' '] + ws.last()
    }
}

/// `s` with every run of white space, newlines included, made one space and
/// none at either end: what keeps a comment on its one line.
pub open spec fn collapsed(s: Seq<char>) -> Seq<char> {
    spaced(words(s))
}

/// A run ending in a non-white character has a word to extend.
proof fn lemma_words_nonempty(s: Seq<char>)
    requires
        s.len() > 0,
        !is_white(s.last()),
    ensures
        words(s).len() > 0,
    decreases s.len(),
{
    if s.len() >= 2 && !is_white(s[s.len() - 2]) {
        assert(s.drop_last().last() == s[s.len() - 2]);
        lemma_words_nonempty(s.drop_last());
    }
}

/// Extending the last word extends the spaced text.
proof fn lemma_spaced_extend(ws: Seq<Seq<char>>, c: char)
    requires
        ws.len() > 0,
    ensures
        spaced(ws.update(ws.len() - 1, ws.last().push(c))) == spaced(ws).push(c),
{
    let up = ws.update(ws.len() - 1, ws.last().push(c));
    if ws.len() > 1 {
        assert(up.drop_last() =~= ws.drop_last());
    }
}

/// The characters of `text`, collapsed.
fn collapse(text: &str) -> (c: String)
    ensures
        c@ == collapsed(text@),
{
    let chars = chars_of(text);
    let ghost s = text@;
    let mut out = String::new();
    let mut i: usize = 0;
    while i < chars.len()
        invariant
            chars@ == s,
            i <= chars@.len(),
            out@ == spaced(words(s.take(i as int))),
            out@.len() == 0 <==> words(s.take(i as int)).len() == 0,
        decreases chars@.len() - i,
    {
        let c = chars[i];
        let ghost prefix = s.take(i as int);
        let ghost next = s.take(i + 1);
        proof {
            assert(next.drop_last() =~= prefix);
            assert(next.last() == c);
        }
        if !white(c) {
            let continuing = i > 0 && !white(chars[i - 1]);
            if continuing {
                proof {
                    assert(next[next.len() - 2] == chars@[i - 1]);
                    assert(prefix.last() == chars@[i - 1]);
                    lemma_words_nonempty(prefix);
                    lemma_spaced_extend(words(prefix), c);
                }
                push_char(&mut out, c);
            } else {
                if out.unicode_len() > 0 {
                    push_char(&mut out, ' ');
                }
                push_char(&mut out, c);
                proof {
                    if i > 0 {
                        assert(next[next.len() - 2] == chars@[i - 1]);
                    }
                    let ws = words(prefix);
                    if ws.len() > 0 {
                        assert(words(next).drop_last() =~= ws);
                    } else {
                        assert(words(next) =~= seq![seq![c]]);
                    }
                }
            }
        }
        i += 1;
    }
    proof {
        assert(s.take(s.len() as int) =~= s);
    }
    out
}

/// A document under construction: a sequence of lines, not a string, so a
/// line is a line by construction.
struct Script(Vec<Line>);

impl Script {
    spec fn lines(&self) -> Seq<LineModel> {
        self.0@.map_values(|l: Line| line_model(l))
    }

    fn new() -> (s: Script)
        ensures
            s.lines() == Seq::<LineModel>::empty(),
    {
        let s = Script(Vec::new());
        proof {
            assert(s.lines() =~= Seq::<LineModel>::empty());
        }
        s
    }

    fn command(&mut self, command: Sexp)
        ensures
            final(self).lines() == old(self).lines().push(LineModel::Command(command@)),
    {
        self.0.push(Line::Command(command));
        proof {
            assert(self.lines() =~= old(self).lines().push(LineModel::Command(command@)));
        }
    }

    /// A `;` comment, its white space collapsed so that it cannot leave its
    /// line.
    fn comment(&mut self, text: &str)
        ensures
            final(self).lines() == old(self).lines().push(LineModel::Comment(collapsed(text@))),
    {
        let collapsed_text = collapse(text);
        self.0.push(Line::Comment(collapsed_text));
        proof {
            assert(self.lines() =~= old(self).lines().push(LineModel::Comment(collapsed(text@))));
        }
    }

    fn render(&self) -> (text: String)
        ensures
            text@ == script_text(self.lines()),
    {
        let mut out = String::new();
        let mut i: usize = 0;
        while i < self.0.len()
            invariant
                i <= self.0@.len(),
                out@ == script_text(self.lines().take(i as int)),
            decreases self.0@.len() - i,
        {
            proof {
                assert(self.lines().take(i + 1).drop_last() =~= self.lines().take(i as int));
            }
            match &self.0[i] {
                Line::Command(command) => {
                    out.append(command.render().as_str());
                    push_char(&mut out, '\n');
                },
                Line::Comment(text) => {
                    push_char(&mut out, ';');
                    push_char(&mut out, ' ');
                    out.append(text.as_str());
                    push_char(&mut out, '\n');
                },
            }
            proof {
                assert(out@ =~= script_text(self.lines().take(i + 1)));
            }
            i += 1;
        }
        proof {
            assert(self.lines().take(self.0@.len() as int) =~= self.lines());
        }
        out
    }
}

// ------------------------------------------------------------ names

/// The name an assertion is tagged with, so that an unsat core reads back as
/// constraint indices.
pub open spec fn core_name_text(index: nat) -> Seq<char> {
    seq!['c'] + decimal(index)
}

/// [`core_name_text`].
pub fn core_name(index: usize) -> (name: String)
    ensures
        name@ == core_name_text(index as nat),
{
    let mut name = String::new();
    push_char(&mut name, 'c');
    push_decimal(&mut name, index as u64);
    name
}

/// The index a core name stands for: a `c`, then what `str::parse::<usize>`
/// reads from the rest.
pub open spec fn core_index_of(name: Seq<char>) -> Option<usize> {
    if name.len() > 0 && name[0] == 'c' {
        parsed_usize(name.drop_first())
    } else {
        None
    }
}

/// [`core_index_of`].
pub fn core_index(name: &str) -> (index: Option<usize>)
    ensures
        index == core_index_of(name@),
{
    let chars = chars_of(name);
    if chars.len() == 0 || chars[0] != 'c' {
        return None;
    }
    let rest = crate::text::string_of_range(&chars, 1, chars.len());
    proof {
        assert(rest@ =~= name@.drop_first());
    }
    parse_usize(rest.as_str())
}

/// Every core name reads back as its index.
pub proof fn lemma_core_names_round_trip(index: usize)
    ensures
        core_index_of(core_name_text(index as nat)) == Some(index),
{
    crate::text::lemma_decimal_parses(index);
    assert(core_name_text(index as nat).drop_first() =~= decimal(index as nat));
}

/// A local slot's name inside a `let`.
pub open spec fn local_text(slot: nat) -> Seq<char> {
    seq!['l'] + decimal(slot)
}

/// [`local_text`].
pub fn local(slot: usize) -> (name: String)
    ensures
        name@ == local_text(slot as nat),
{
    let mut name = String::new();
    push_char(&mut name, 'l');
    push_decimal(&mut name, slot as u64);
    name
}

/// The name of a constraint's `k`th auxiliary variable.
pub open spec fn auxiliary_text(constraint: nat, k: nat) -> Seq<char> {
    "aux_"@ + decimal(constraint) + seq!['_'] + decimal(k)
}

fn auxiliary(constraint: usize, k: usize) -> (name: String)
    ensures
        name@ == auxiliary_text(constraint as nat, k as nat),
{
    let mut name = String::new();
    name.append("aux_");
    push_decimal(&mut name, constraint as u64);
    push_char(&mut name, '_');
    push_decimal(&mut name, k as u64);
    name
}

// ------------------------------------------------------------ the prelude

/// `(define-fun name ((p Real)...) Real body)`.
pub open spec fn define_fun_model(name: Seq<char>, parameters: Seq<Seq<char>>, body: SexpModel) -> SexpModel {
    call_model(
        "define-fun"@,
        seq![
            atom(name),
            SexpModel::List(Seq::new(parameters.len(), |i: int| SexpModel::List(seq![atom(parameters[i]), atom("Real"@)]))),
            atom("Real"@),
            body,
        ],
    )
}

/// The helpers for what SMT-LIB lacks over the reals, each defined once
/// rather than inlined, so that an argument is not duplicated into every
/// branch of an `ite`:
///
/// | helper | meaning |
/// |---|---|
/// | `babel_abs x` | `(ite (< x 0.0) (- x) x)` |
/// | `babel_sqr x` | `(* x x)` |
/// | `babel_cube x` | `(* x x x)` |
/// | `babel_max a b` | `(ite (>= a b) a b)` |
/// | `babel_min a b` | `(ite (<= a b) a b)` |
/// | `babel_sgn x` | `(ite (< x 0.0) (- 1.0) (ite (> x 0.0) 1.0 0.0))`: zero maps to zero |
/// | `babel_floor x` | `(to_real (to_int x))`: `to_int` is floor, negatives included |
/// | `babel_ceil x` | `(- (to_real (to_int (- x))))` |
/// | `babel_trunc x` | `(ite (>= x 0.0) (babel_floor x) (babel_ceil x))` |
/// | `babel_rem a b` | `(- a (* b (babel_trunc (/ a b))))`: a remainder, signed as the dividend |
pub open spec fn prelude_model() -> Seq<SexpModel> {
    let x = atom("x"@);
    let a = atom("a"@);
    let b = atom("b"@);
    let zero = atom("0.0"@);
    let one = atom("1.0"@);
    seq![
        define_fun_model("babel_abs"@, seq!["x"@], call_model("ite"@, seq![call_model("<"@, seq![x, zero]), call_model("-"@, seq![x]), x])),
        define_fun_model("babel_sqr"@, seq!["x"@], call_model("*"@, seq![x, x])),
        define_fun_model("babel_cube"@, seq!["x"@], call_model("*"@, seq![x, x, x])),
        define_fun_model("babel_max"@, seq!["a"@, "b"@], call_model("ite"@, seq![call_model(">="@, seq![a, b]), a, b])),
        define_fun_model("babel_min"@, seq!["a"@, "b"@], call_model("ite"@, seq![call_model("<="@, seq![a, b]), a, b])),
        define_fun_model(
            "babel_sgn"@,
            seq!["x"@],
            call_model(
                "ite"@,
                seq![
                    call_model("<"@, seq![x, zero]),
                    call_model("-"@, seq![one]),
                    call_model("ite"@, seq![call_model(">"@, seq![x, zero]), one, zero]),
                ],
            ),
        ),
        define_fun_model("babel_floor"@, seq!["x"@], call_model("to_real"@, seq![call_model("to_int"@, seq![x])])),
        define_fun_model(
            "babel_ceil"@,
            seq!["x"@],
            call_model("-"@, seq![call_model("to_real"@, seq![call_model("to_int"@, seq![call_model("-"@, seq![x])])])]),
        ),
        define_fun_model(
            "babel_trunc"@,
            seq!["x"@],
            call_model(
                "ite"@,
                seq![call_model(">="@, seq![x, zero]), call_model("babel_floor"@, seq![x]), call_model("babel_ceil"@, seq![x])],
            ),
        ),
        define_fun_model(
            "babel_rem"@,
            seq!["a"@, "b"@],
            call_model(
                "-"@,
                seq![a, call_model("*"@, seq![b, call_model("babel_trunc"@, seq![call_model("/"@, seq![a, b])])])],
            ),
        ),
    ]
}

fn typed(parameter: &str) -> (s: Sexp)
    ensures
        s@ == SexpModel::List(seq![atom(parameter@), atom("Real"@)]),
{
    list2(Sexp::atom(parameter), Sexp::atom("Real"))
}

fn define_fun1(name: &str, p: &str, body: Sexp) -> (s: Sexp)
    ensures
        s@ == define_fun_model(name@, seq![p@], body@),
{
    let parameters = list1(typed(p));
    proof {
        assert(parameters@->List_0 =~= Seq::new(
            1,
            |i: int| SexpModel::List(seq![atom(seq![p@][i]), atom("Real"@)]),
        ));
    }
    let ghost m = body@;
    let s = Sexp::call("define-fun", vec![Sexp::atom(name), parameters, Sexp::atom("Real"), body]);
    proof {
        assert(s@->List_0 =~= define_fun_model(name@, seq![p@], m)->List_0);
    }
    s
}

fn define_fun2(name: &str, p: &str, q: &str, body: Sexp) -> (s: Sexp)
    ensures
        s@ == define_fun_model(name@, seq![p@, q@], body@),
{
    let parameters = list2(typed(p), typed(q));
    proof {
        assert(parameters@->List_0 =~= Seq::new(
            2,
            |i: int| SexpModel::List(seq![atom(seq![p@, q@][i]), atom("Real"@)]),
        ));
    }
    let ghost m = body@;
    let s = Sexp::call("define-fun", vec![Sexp::atom(name), parameters, Sexp::atom("Real"), body]);
    proof {
        assert(s@->List_0 =~= define_fun_model(name@, seq![p@, q@], m)->List_0);
    }
    s
}

fn x() -> (s: Sexp)
    ensures
        s@ == atom("x"@),
{
    Sexp::atom("x")
}

fn zero() -> (s: Sexp)
    ensures
        s@ == atom("0.0"@),
{
    Sexp::atom("0.0")
}

fn one() -> (s: Sexp)
    ensures
        s@ == atom("1.0"@),
{
    Sexp::atom("1.0")
}

fn a() -> (s: Sexp)
    ensures
        s@ == atom("a"@),
{
    Sexp::atom("a")
}

fn b() -> (s: Sexp)
    ensures
        s@ == atom("b"@),
{
    Sexp::atom("b")
}

/// The helpers; see [`prelude_model`].
pub fn prelude() -> (helpers: Vec<Sexp>)
    ensures
        helpers@.map_values(|s: Sexp| s@) == prelude_model(),
{
    let mut helpers: Vec<Sexp> = Vec::new();
    helpers.push(define_fun1("babel_abs", "x", call3("ite", call2("<", x(), zero()), call1("-", x()), x())));
    helpers.push(define_fun1("babel_sqr", "x", call2("*", x(), x())));
    helpers.push(define_fun1("babel_cube", "x", call3("*", x(), x(), x())));
    helpers.push(define_fun2("babel_max", "a", "b", call3("ite", call2(">=", a(), b()), a(), b())));
    helpers.push(define_fun2("babel_min", "a", "b", call3("ite", call2("<=", a(), b()), a(), b())));
    helpers.push(
        define_fun1(
            "babel_sgn",
            "x",
            call3("ite", call2("<", x(), zero()), call1("-", one()), call3("ite", call2(">", x(), zero()), one(), zero())),
        ),
    );
    helpers.push(define_fun1("babel_floor", "x", call1("to_real", call1("to_int", x()))));
    helpers.push(define_fun1("babel_ceil", "x", call1("-", call1("to_real", call1("to_int", call1("-", x()))))));
    helpers.push(
        define_fun1(
            "babel_trunc",
            "x",
            call3("ite", call2(">=", x(), zero()), call1("babel_floor", x()), call1("babel_ceil", x())),
        ),
    );
    helpers.push(
        define_fun2(
            "babel_rem",
            "a",
            "b",
            call2("-", a(), call2("*", b(), call1("babel_trunc", call2("/", a(), b())))),
        ),
    );
    proof {
        assert(helpers@.map_values(|s: Sexp| s@) =~= prelude_model());
    }
    helpers
}

// ------------------------------------------------------------ literals

/// The decimal text `table` gives for the magnitude `m`: its first entry
/// for `m`.
pub open spec fn digits_for(table: Seq<(u64, String)>, m: u64) -> Option<Seq<char>>
    decreases table.len(),
{
    if table.len() == 0 {
        None
    } else {
        match digits_for(table.drop_last(), m) {
            Some(d) => Some(d),
            None => if table.last().0 == m {
                Some(table.last().1@)
            } else {
                None
            },
        }
    }
}

/// A binary64 value as an SMT-LIB `Real` term: its magnitude's decimal text
/// from `table`, under the operator `-` when the sign bit is set, since a
/// minus is an operator there and not part of a literal. Nothing for an
/// infinity or a NaN, which have no `Real` to be, or for a magnitude the
/// table lacks.
pub open spec fn real_model(bits: u64, table: Seq<(u64, String)>) -> Option<SexpModel> {
    if exponent_field(bits) == 2047 {
        None
    } else {
        match digits_for(table, (bits % SIGN_BIT) as u64) {
            Some(d) => Some(
                if is_negative(bits) {
                    call_model("-"@, seq![atom(d)])
                } else {
                    atom(d)
                },
            ),
            None => None,
        }
    }
}

/// [`digits_for`].
fn lookup(table: &[(u64, String)], m: u64) -> (d: Option<&String>)
    ensures
        match (d, digits_for(table@, m)) {
            (Some(x), Some(y)) => x@ == y,
            (None, None) => true,
            _ => false,
        },
{
    let mut i: usize = 0;
    while i < table.len()
        invariant
            i <= table@.len(),
            digits_for(table@.take(i as int), m) is None,
        decreases table@.len() - i,
    {
        proof {
            assert(table@.take(i + 1).drop_last() =~= table@.take(i as int));
        }
        if table[i].0 == m {
            proof {
                lemma_digits_for_prefix(table@, m, i + 1);
            }
            return Some(&table[i].1);
        }
        i += 1;
    }
    proof {
        assert(table@.take(table@.len() as int) =~= table@);
    }
    None
}

proof fn lemma_digits_for_prefix(table: Seq<(u64, String)>, m: u64, k: int)
    requires
        0 <= k <= table.len(),
        digits_for(table.take(k), m) is Some,
    ensures
        digits_for(table, m) == digits_for(table.take(k), m),
    decreases table.len() - k,
{
    if k < table.len() {
        assert(table.take(k + 1).drop_last() =~= table.take(k));
        lemma_digits_for_prefix(table, m, k + 1);
    } else {
        assert(table.take(k) =~= table);
    }
}

/// [`real_model`].
fn real_term(bits: u64, table: &[(u64, String)]) -> (r: Option<Sexp>)
    ensures
        match (r, real_model(bits, table@)) {
            (Some(x), Some(y)) => x@ == y,
            (None, None) => true,
            _ => false,
        },
{
    if (bits / 0x10_0000_0000_0000) % 2048 == 2047 {
        return None;
    }
    match lookup(table, bits % 0x8000_0000_0000_0000) {
        Some(digits) => {
            let term = Sexp::atom(digits.as_str());
            if bits >= 0x8000_0000_0000_0000 {
                Some(call1("-", term))
            } else {
                Some(term)
            }
        },
        None => None,
    }
}

// ------------------------------------------------------------ translation

/// What a term is resolved against: the expression's own symbols (what a
/// global id indexes), the box in declaration order (what `var[i]` indexes,
/// one-based), the constraint's index (which keeps auxiliary names distinct
/// across a document), and the literal texts.
pub ghost struct Cx {
    pub symbols: Seq<String>,
    pub inputs: Seq<InputVariable>,
    pub constraint: nat,
    pub table: Seq<(u64, String)>,
}

/// What translation accumulates: the commands the terms depend on (divisor
/// guards, auxiliary declarations and their definitions), in the order they
/// must precede the assertion, and how many auxiliaries are declared.
pub ghost struct St {
    pub conditions: Seq<SexpModel>,
    pub auxiliaries: nat,
}

/// `(assert (not (= r 0.0)))`.
pub open spec fn divisor_guard(r: SexpModel) -> SexpModel {
    call_model("assert"@, seq![call_model("not"@, seq![call_model("="@, seq![r, atom("0.0"@)])])])
}

/// `(declare-const name Real)`.
pub open spec fn declaration(name: SexpModel) -> SexpModel {
    call_model("declare-const"@, seq![name, atom("Real"@)])
}

/// A unary operation on the term `a`. `sqrt` and `cbrt` declare the next
/// auxiliary `y` with `y*y = a` and `y >= 0`, or `y*y*y = a`; the
/// transcendentals and the logarithms have no term.
pub open spec fn unary_term(op: UnaryOp, a: SexpModel, cx: Cx, st: St) -> Option<(SexpModel, St)> {
    match op {
        UnaryOp::Negate => Some((call_model("-"@, seq![a]), st)),
        UnaryOp::Abs => Some((call_model("babel_abs"@, seq![a]), st)),
        UnaryOp::Sqr => Some((call_model("babel_sqr"@, seq![a]), st)),
        UnaryOp::Cube => Some((call_model("babel_cube"@, seq![a]), st)),
        UnaryOp::Sgn => Some((call_model("babel_sgn"@, seq![a]), st)),
        UnaryOp::Floor => Some((call_model("babel_floor"@, seq![a]), st)),
        UnaryOp::Ceil => Some((call_model("babel_ceil"@, seq![a]), st)),
        UnaryOp::Sqrt => if st.auxiliaries >= usize::MAX {
            None
        } else {
            let y = atom(auxiliary_text(cx.constraint, st.auxiliaries));
            Some(
                (
                    y,
                    St {
                        conditions: st.conditions + seq![
                            declaration(y),
                            call_model("assert"@, seq![call_model(">="@, seq![y, atom("0.0"@)])]),
                            call_model("assert"@, seq![call_model("="@, seq![call_model("*"@, seq![y, y]), a])]),
                        ],
                        auxiliaries: st.auxiliaries + 1,
                    },
                ),
            )
        },
        UnaryOp::Cbrt => if st.auxiliaries >= usize::MAX {
            None
        } else {
            let y = atom(auxiliary_text(cx.constraint, st.auxiliaries));
            Some(
                (
                    y,
                    St {
                        conditions: st.conditions + seq![
                            declaration(y),
                            call_model("assert"@, seq![call_model("="@, seq![call_model("*"@, seq![y, y, y]), a])]),
                        ],
                        auxiliaries: st.auxiliaries + 1,
                    },
                ),
            )
        },
        _ => None,
    }
}

/// A binary operation on the terms `l` and `r`, other than a power. Division
/// and `%` guard their divisor; `log(base, x)` has no term.
pub open spec fn binary_term(op: BinaryOp, l: SexpModel, r: SexpModel, st: St) -> Option<(SexpModel, St)> {
    match op {
        BinaryOp::Add => Some((call_model("+"@, seq![l, r]), st)),
        BinaryOp::Sub => Some((call_model("-"@, seq![l, r]), st)),
        BinaryOp::Mul => Some((call_model("*"@, seq![l, r]), st)),
        BinaryOp::Div => Some(
            (call_model("/"@, seq![l, r]), St { conditions: st.conditions.push(divisor_guard(r)), auxiliaries: st.auxiliaries }),
        ),
        BinaryOp::Max => Some((call_model("babel_max"@, seq![l, r]), st)),
        BinaryOp::Min => Some((call_model("babel_min"@, seq![l, r]), st)),
        BinaryOp::Rem => Some(
            (
                call_model("babel_rem"@, seq![l, r]),
                St { conditions: st.conditions.push(divisor_guard(r)), auxiliaries: st.auxiliaries },
            ),
        ),
        _ => None,
    }
}

/// `base^t` for a whole `t` with `|t| <= 64`: the base bound once with
/// `let` as `pow_base`, then multiplied `|t|` times, and inverted when `t`
/// is negative; `1.0` when `t` is zero.
pub open spec fn power_term(t: int, base: SexpModel) -> SexpModel {
    if t == 0 {
        atom("1.0"@)
    } else {
        let name = atom("pow_base"@);
        let count = if t < 0 {
            -t
        } else {
            t
        };
        let product = if count == 1 {
            name
        } else {
            call_model("*"@, Seq::new(count as nat, |i: int| name))
        };
        let body = if t < 0 {
            call_model("/"@, seq![atom("1.0"@), product])
        } else {
            product
        };
        call_model("let"@, seq![SexpModel::List(seq![SexpModel::List(seq![name, base])]), body])
    }
}

/// The SMT-LIB term of `e`, and the state after it; nothing if some part
/// has no term. Subterms translate left to right; a literal subscript names
/// the box's variable at that one-based position; a computed subscript, an
/// aggregate left to run time, and a comparison have no term.
pub open spec fn expression_term(e: ExprModel, cx: Cx, st: St) -> Option<(SexpModel, St)>
    decreases e,
{
    match e.kind {
        KindModel::Literal(bits) => match real_model(bits, cx.table) {
            Some(t) => Some((t, st)),
            None => None,
        },
        KindModel::Global(id) => if id.spec_index() < cx.symbols.len() {
            Some((symbol_model(cx.symbols[id.spec_index() as int]@), st))
        } else {
            None
        },
        KindModel::Local(slot) => Some((atom(local_text(slot.0 as nat)), st)),
        KindModel::DynamicIndex(index) => match index.kind {
            KindModel::Literal(bits) => match index_of(bits) {
                Some(k) => if 1 <= k && k - 1 < cx.inputs.len() {
                    Some((symbol_model(cx.inputs[k - 1].name@), st))
                } else {
                    None
                },
                None => None,
            },
            _ => None,
        },
        KindModel::Unary { op, arg } => match expression_term(*arg, cx, st) {
            Some((a, st1)) => unary_term(op, a, cx, st1),
            None => None,
        },
        KindModel::Binary { op, lhs, rhs } => if op == BinaryOp::Pow {
            match rhs.kind {
                KindModel::Literal(bits) => match index_of(bits) {
                    Some(t) => if t < -64 || t > 64 {
                        None
                    } else {
                        match expression_term(*lhs, cx, st) {
                            Some((base, st1)) => Some((power_term(t as int, base), st1)),
                            None => None,
                        }
                    },
                    None => None,
                },
                _ => None,
            }
        } else {
            match expression_term(*lhs, cx, st) {
                Some((l, st1)) => match expression_term(*rhs, cx, st1) {
                    Some((r, st2)) => binary_term(op, l, r, st2),
                    None => None,
                },
                None => None,
            }
        },
        KindModel::Fold { kind, terms } => match terms_term(terms, cx, st) {
            Some((items, st1)) => if items.len() == 0 {
                match real_model(
                    if kind == AggregateKind::Sum {
                        0u64
                    } else {
                        0x3FF0_0000_0000_0000u64
                    },
                    cx.table,
                ) {
                    Some(t) => Some((t, st1)),
                    None => None,
                }
            } else if items.len() == 1 {
                Some((items[0], st1))
            } else {
                Some(
                    (
                        call_model(
                            if kind == AggregateKind::Sum {
                                "+"@
                            } else {
                                "*"@
                            },
                            items,
                        ),
                        st1,
                    ),
                )
            },
            None => None,
        },
        KindModel::Block(block) => block_term(*block, cx, st),
        _ => None,
    }
}

/// The terms of a run of expressions, left to right.
pub open spec fn terms_term(terms: Seq<ExprModel>, cx: Cx, st: St) -> Option<(Seq<SexpModel>, St)>
    decreases terms,
{
    if terms.len() == 0 {
        Some((Seq::empty(), st))
    } else {
        match terms_term(terms.drop_last(), cx, st) {
            Some((done, st1)) => match expression_term(terms.last(), cx, st1) {
                Some((t, st2)) => Some((done.push(t), st2)),
                None => None,
            },
            None => None,
        }
    }
}

/// A block: its result's term, wrapped in a `let` per assignment, the last
/// assignment innermost, so that each binding is visible to the ones after
/// it. The result translates first, then the assignments from the last.
pub open spec fn block_term(b: BlockModel, cx: Cx, st: St) -> Option<(SexpModel, St)>
    decreases b,
{
    match expression_term(b.result, cx, st) {
        Some((r, st1)) => lets_term(b.assignments, r, cx, st1),
        None => None,
    }
}

/// `inner` under a `let` for each of `assignments`, the last innermost.
pub open spec fn lets_term(assignments: Seq<AssignmentModel>, inner: SexpModel, cx: Cx, st: St) -> Option<(SexpModel, St)>
    decreases assignments,
{
    if assignments.len() == 0 {
        Some((inner, st))
    } else {
        let a = assignments.last();
        match expression_term(a.value, cx, st) {
            Some((v, st1)) => lets_term(
                assignments.drop_last(),
                call_model(
                    "let"@,
                    seq![SexpModel::List(seq![SexpModel::List(seq![atom(local_text(a.slot.0 as nat)), v])]), inner],
                ),
                cx,
                st1,
            ),
            None => None,
        }
    }
}

/// Once a prefix of terms has none, no longer prefix has any.
proof fn lemma_terms_failure_persists(terms: Seq<ExprModel>, cx: Cx, st: St, k: int)
    requires
        0 <= k <= terms.len(),
        terms_term(terms.take(k), cx, st) is None,
    ensures
        terms_term(terms, cx, st) is None,
    decreases terms.len() - k,
{
    if k < terms.len() {
        assert(terms.take(k + 1).drop_last() =~= terms.take(k));
        lemma_terms_failure_persists(terms, cx, st, k + 1);
    } else {
        assert(terms.take(k) =~= terms);
    }
}

/// A translation in progress.
struct Names<'a> {
    symbols: &'a [String],
    inputs: &'a [InputVariable],
    constraint: usize,
    table: &'a [(u64, String)],
    conditions: Vec<Sexp>,
    auxiliaries: usize,
}

impl<'a> Names<'a> {
    spec fn cx(&self) -> Cx {
        Cx { symbols: self.symbols@, inputs: self.inputs@, constraint: self.constraint as nat, table: self.table@ }
    }

    spec fn st(&self) -> St {
        St { conditions: self.conditions@.map_values(|s: Sexp| s@), auxiliaries: self.auxiliaries as nat }
    }

    fn push_condition(&mut self, condition: Sexp)
        ensures
            final(self).cx() == old(self).cx(),
            final(self).st() == (St {
                conditions: old(self).st().conditions.push(condition@),
                auxiliaries: old(self).st().auxiliaries,
            }),
    {
        self.conditions.push(condition);
        proof {
            assert(self.conditions@.map_values(|s: Sexp| s@) =~= old(self).conditions@.map_values(|s: Sexp| s@).push(
                condition@,
            ));
        }
    }

    /// [`unary_term`].
    fn unary(&mut self, op: UnaryOp, a: Sexp) -> (r: Option<Sexp>)
        ensures
            final(self).cx() == old(self).cx(),
            match unary_term(op, a@, old(self).cx(), old(self).st()) {
                Some((s, st)) => r matches Some(x) && x@ == s && final(self).st() == st,
                None => r is None,
            },
    {
        match op {
            UnaryOp::Negate => Some(call1("-", a)),
            UnaryOp::Abs => Some(call1("babel_abs", a)),
            UnaryOp::Sqr => Some(call1("babel_sqr", a)),
            UnaryOp::Cube => Some(call1("babel_cube", a)),
            UnaryOp::Sgn => Some(call1("babel_sgn", a)),
            UnaryOp::Floor => Some(call1("babel_floor", a)),
            UnaryOp::Ceil => Some(call1("babel_ceil", a)),
            UnaryOp::Sqrt => {
                if self.auxiliaries == usize::MAX {
                    return None;
                }
                let name = auxiliary(self.constraint, self.auxiliaries);
                self.auxiliaries = self.auxiliaries + 1;
                let y = Sexp::atom(name.as_str());
                self.push_condition(call2("declare-const", y.duplicate(), Sexp::atom("Real")));
                self.push_condition(call1("assert", call2(">=", y.duplicate(), Sexp::atom("0.0"))));
                self.push_condition(call1("assert", call2("=", call2("*", y.duplicate(), y.duplicate()), a)));
                proof {
                    assert(self.st().conditions =~= old(self).st().conditions + seq![
                        declaration(y@),
                        call_model("assert"@, seq![call_model(">="@, seq![y@, atom("0.0"@)])]),
                        call_model("assert"@, seq![call_model("="@, seq![call_model("*"@, seq![y@, y@]), a@])]),
                    ]);
                }
                Some(y)
            },
            UnaryOp::Cbrt => {
                if self.auxiliaries == usize::MAX {
                    return None;
                }
                let name = auxiliary(self.constraint, self.auxiliaries);
                self.auxiliaries = self.auxiliaries + 1;
                let y = Sexp::atom(name.as_str());
                self.push_condition(call2("declare-const", y.duplicate(), Sexp::atom("Real")));
                self.push_condition(call1("assert", call2("=", call3("*", y.duplicate(), y.duplicate(), y.duplicate()), a)));
                proof {
                    assert(self.st().conditions =~= old(self).st().conditions + seq![
                        declaration(y@),
                        call_model("assert"@, seq![call_model("="@, seq![call_model("*"@, seq![y@, y@, y@]), a@])]),
                    ]);
                }
                Some(y)
            },
            _ => None,
        }
    }

    /// [`binary_term`].
    fn binary(&mut self, op: BinaryOp, l: Sexp, r: Sexp) -> (t: Option<Sexp>)
        ensures
            final(self).cx() == old(self).cx(),
            match binary_term(op, l@, r@, old(self).st()) {
                Some((s, st)) => t matches Some(x) && x@ == s && final(self).st() == st,
                None => t is None,
            },
    {
        match op {
            BinaryOp::Add => Some(call2("+", l, r)),
            BinaryOp::Sub => Some(call2("-", l, r)),
            BinaryOp::Mul => Some(call2("*", l, r)),
            BinaryOp::Div => {
                self.push_condition(call1("assert", call1("not", call2("=", r.duplicate(), Sexp::atom("0.0")))));
                Some(call2("/", l, r))
            },
            BinaryOp::Max => Some(call2("babel_max", l, r)),
            BinaryOp::Min => Some(call2("babel_min", l, r)),
            BinaryOp::Rem => {
                self.push_condition(call1("assert", call1("not", call2("=", r.duplicate(), Sexp::atom("0.0")))));
                Some(call2("babel_rem", l, r))
            },
            _ => None,
        }
    }

    /// [`expression_term`].
    fn expression(&mut self, e: &Expr) -> (r: Option<Sexp>)
        ensures
            final(self).cx() == old(self).cx(),
            match expression_term(e@, old(self).cx(), old(self).st()) {
                Some((s, st)) => r matches Some(x) && x@ == s && final(self).st() == st,
                None => r is None,
            },
        decreases e,
    {
        match &e.kind {
            Kind::Literal(bits) => {
                assert(e@.kind == KindModel::Literal(*bits));
                real_term(*bits, self.table)
            },
            Kind::Global(id) => {
                assert(e@.kind == KindModel::Global(*id));
                let k = id.index();
                if k < self.symbols.len() {
                    Some(Sexp::symbol(self.symbols[k].as_str()))
                } else {
                    None
                }
            },
            Kind::Local(slot) => {
                assert(e@.kind == KindModel::Local(*slot));
                Some(Sexp::atom(local(slot.index()).as_str()))
            },
            Kind::DynamicIndex(index) => match &index.kind {
                Kind::Literal(bits) => match to_index(*bits) {
                    Some(k) => {
                        assert(index@.kind == KindModel::Literal(*bits));
                        if k >= 1 && ((k - 1) as u64) < (self.inputs.len() as u64) {
                            let p = (k - 1) as usize;
                            Some(Sexp::symbol(self.inputs[p].name.as_str()))
                        } else {
                            None
                        }
                    },
                    None => None,
                },
                _ => None,
            },
            Kind::Unary { op, arg } => match self.expression(arg) {
                Some(a) => self.unary(*op, a),
                None => None,
            },
            Kind::Binary { op, lhs, rhs } => match op {
                BinaryOp::Pow => match &rhs.kind {
                    Kind::Literal(bits) => match to_index(*bits) {
                        Some(t) => {
                            if t < -64 || t > 64 {
                                None
                            } else {
                                match self.expression(lhs) {
                                    Some(base) => Some(power_of(t, base)),
                                    None => None,
                                }
                            }
                        },
                        None => None,
                    },
                    _ => None,
                },
                _ => match self.expression(lhs) {
                    Some(l) => match self.expression(rhs) {
                        Some(r) => self.binary(*op, l, r),
                        None => None,
                    },
                    None => None,
                },
            },
            Kind::Fold { kind, terms } => {
                let ghost model = e@.kind->Fold_terms;
                let ghost start = self.st();
                let mut rendered: Vec<Sexp> = Vec::new();
                let mut i: usize = 0;
                while i < terms.len()
                    invariant
                        e.kind == (Kind::Fold { kind: *kind, terms: *terms }),
                        model == e@.kind->Fold_terms,
                        model.len() == terms@.len(),
                        forall|j: int| 0 <= j < terms@.len() ==> model[j] == (#[trigger] terms@[j])@,
                        i <= terms@.len(),
                        self.cx() == old(self).cx(),
                        start == old(self).st(),
                        terms_term(model.take(i as int), self.cx(), start) == Some(
                            (rendered@.map_values(|s: Sexp| s@), self.st()),
                        ),
                    decreases terms@.len() - i,
                {
                    assert(decreases_to!(*e => e.kind->Fold_terms@[i as int]));
                    proof {
                        assert(model.take(i + 1).drop_last() =~= model.take(i as int));
                        assert(model.take(i + 1).last() == model[i as int]);
                    }
                    let ghost before = rendered@.map_values(|s: Sexp| s@);
                    match self.expression(&terms[i]) {
                        Some(t) => {
                            rendered.push(t);
                            proof {
                                assert(rendered@.map_values(|s: Sexp| s@) =~= before.push(t@));
                            }
                        },
                        None => {
                            proof {
                                lemma_terms_failure_persists(model, self.cx(), start, i + 1);
                                assert(model.take(model.len() as int) =~= model);
                            }
                            return None;
                        },
                    }
                    i += 1;
                }
                proof {
                    assert(model.take(model.len() as int) =~= model);
                }
                let ghost items = rendered@.map_values(|s: Sexp| s@);
                if rendered.len() == 0 {
                    let identity: u64 = match kind {
                        AggregateKind::Sum => 0,
                        AggregateKind::Prod => 0x3FF0_0000_0000_0000,
                    };
                    real_term(identity, self.table)
                } else if rendered.len() == 1 {
                    let only = rendered.pop().unwrap();
                    Some(only)
                } else {
                    let head = match kind {
                        AggregateKind::Sum => "+",
                        AggregateKind::Prod => "*",
                    };
                    let term = Sexp::call(head, rendered);
                    proof {
                        assert(term@->List_0 =~= seq![SexpModel::Atom(head@)] + items);
                    }
                    Some(term)
                }
            },
            Kind::Block(block) => self.block(block),
            _ => None,
        }
    }

    /// [`block_term`].
    fn block(&mut self, b: &Block) -> (r: Option<Sexp>)
        ensures
            final(self).cx() == old(self).cx(),
            match block_term(b@, old(self).cx(), old(self).st()) {
                Some((s, st)) => r matches Some(x) && x@ == s && final(self).st() == st,
                None => r is None,
            },
        decreases b,
    {
        let ghost model = b@.assignments;
        let mut rendered = match self.expression(&b.result) {
            Some(r) => r,
            None => {
                return None;
            },
        };
        let ghost goal = block_term(b@, old(self).cx(), old(self).st());
        proof {
            assert(model.take(model.len() as int) =~= model);
        }
        let mut j: usize = b.assignments.len();
        while j > 0
            invariant
                model == b@.assignments,
                model.len() == b.assignments@.len(),
                j <= b.assignments@.len(),
                self.cx() == old(self).cx(),
                goal == block_term(b@, old(self).cx(), old(self).st()),
                goal == lets_term(model.take(j as int), rendered@, self.cx(), self.st()),
            decreases j,
        {
            assert(decreases_to!(*b => b.assignments@[j - 1]));
            let a = &b.assignments[j - 1];
            proof {
                assert(model.take(j as int).drop_last() =~= model.take(j - 1));
                assert(model.take(j as int).last() == model[j - 1]);
            }
            match self.expression(&a.value) {
                Some(v) => {
                    let binding = list2(Sexp::atom(local(a.slot.index()).as_str()), v);
                    rendered = call2("let", list1(binding), rendered);
                },
                None => {
                    return None;
                },
            }
            j -= 1;
        }
        proof {
            assert(model.take(0) =~= Seq::<AssignmentModel>::empty());
        }
        Some(rendered)
    }
}

/// [`power_term`].
fn power_of(t: i64, base: Sexp) -> (s: Sexp)
    requires
        -64 <= t <= 64,
    ensures
        s@ == power_term(t as int, base@),
{
    if t == 0 {
        return Sexp::atom("1.0");
    }
    let count: usize = if t < 0 {
        (-t) as usize
    } else {
        t as usize
    };
    let product = if count == 1 {
        Sexp::atom("pow_base")
    } else {
        let mut factors: Vec<Sexp> = Vec::new();
        while factors.len() < count
            invariant
                factors@.len() <= count,
                forall|j: int| 0 <= j < factors@.len() ==> (#[trigger] factors@[j])@ == atom("pow_base"@),
            decreases count - factors@.len(),
        {
            factors.push(Sexp::atom("pow_base"));
        }
        let ghost n = count;
        let product = Sexp::call("*", factors);
        proof {
            assert(product@->List_0 =~= seq![SexpModel::Atom("*"@)] + Seq::new(n as nat, |i: int| atom("pow_base"@)));
        }
        product
    };
    let body = if t < 0 {
        call2("/", Sexp::atom("1.0"), product)
    } else {
        product
    };
    let binding = list1(list2(Sexp::atom("pow_base"), base));
    call2("let", binding, body)
}

// ------------------------------------------------------------ documents

/// The residual the rewrite marks strict by adding `EPSILON`: its other
/// operand.
pub open spec fn strict_residual(e: ExprModel) -> Option<ExprModel> {
    match e.kind {
        KindModel::Binary { op, lhs, rhs } => if op == BinaryOp::Add && rhs.kind == KindModel::Literal(EPSILON_BITS) {
            Some(*lhs)
        } else {
            None
        },
        _ => None,
    }
}

/// Constraint `index` as the commands it depends on, a relation and a
/// residual: the residual of the boolean rewrite, asserted `< 0` when the
/// rewrite marked it strict and `<= 0` otherwise. Nothing for an expression
/// that is not a constraint (it has no `<= 0` reading) or whose residual has
/// no term.
pub open spec fn translation(c: Ast, index: nat, inputs: Seq<InputVariable>, table: Seq<(u64, String)>) -> Option<
    (Seq<SexpModel>, Seq<char>, SexpModel),
> {
    if !c.spec_is_constraint() {
        None
    } else {
        let body = rewritten_block(c.spec_program()@.body);
        let cx = Cx { symbols: c.spec_symbols(), inputs, constraint: index, table };
        let st = St { conditions: Seq::empty(), auxiliaries: 0 };
        if body.assignments.len() == 0 && strict_residual(body.result) is Some {
            match expression_term(strict_residual(body.result)->Some_0, cx, st) {
                Some((r, after)) => Some((after.conditions, "<"@, r)),
                None => None,
            }
        } else {
            match block_term(body, cx, st) {
                Some((r, after)) => Some((after.conditions, "<="@, r)),
                None => None,
            }
        }
    }
}

/// `(assert (! (relation residual 0.0) :named c<index>))`: named, so that an
/// unsat core points back at the constraint.
pub open spec fn assertion(relation: Seq<char>, residual: SexpModel, index: nat) -> SexpModel {
    call_model(
        "assert"@,
        seq![
            call_model(
                "!"@,
                seq![call_model(relation, seq![residual, atom("0.0"@)]), atom(":named"@), atom(core_name_text(index))],
            ),
        ],
    )
}

/// The comment that stands where a constraint could not be asserted.
pub open spec fn not_translated() -> Seq<char> {
    "  NOT TRANSLATED - outside the declared logic, left unasserted"@
}

/// Commands, one line each.
pub open spec fn commands(terms: Seq<SexpModel>) -> Seq<LineModel> {
    Seq::new(terms.len(), |i: int| LineModel::Command(terms[i]))
}

/// A declaration per input.
pub open spec fn declaration_lines(inputs: Seq<InputVariable>) -> Seq<LineModel> {
    Seq::new(inputs.len(), |i: int| LineModel::Command(declaration(symbol_model(inputs[i].name@))))
}

/// A range assertion per input whose bounds both have a term; an input with
/// a non-finite bound gets none.
pub open spec fn bound_lines(inputs: Seq<InputVariable>, table: Seq<(u64, String)>) -> Seq<LineModel>
    decreases inputs.len(),
{
    if inputs.len() == 0 {
        Seq::empty()
    } else {
        let rest = bound_lines(inputs.drop_last(), table);
        let v = inputs.last();
        match (real_model(v.lower_bound, table), real_model(v.upper_bound, table)) {
            (Some(lo), Some(hi)) => rest.push(
                LineModel::Command(
                    call_model(
                        "assert"@,
                        seq![
                            call_model(
                                "and"@,
                                seq![
                                    call_model(">="@, seq![symbol_model(v.name@), lo]),
                                    call_model("<="@, seq![symbol_model(v.name@), hi]),
                                ],
                            ),
                        ],
                    ),
                ),
            ),
            _ => rest,
        }
    }
}

/// Per constraint: its source as a comment, then either its conditions and
/// its named assertion, or a comment saying it was not translated.
pub open spec fn constraint_lines(cs: Seq<Ast>, inputs: Seq<InputVariable>, table: Seq<(u64, String)>) -> Seq<LineModel>
    decreases cs.len(),
{
    if cs.len() == 0 {
        Seq::empty()
    } else {
        let k = (cs.len() - 1) as nat;
        let c = cs.last();
        constraint_lines(cs.drop_last(), inputs, table) + seq![LineModel::Comment(collapsed(c.spec_source()))] + match translation(
            c,
            k,
            inputs,
            table,
        ) {
            Some((conditions, relation, residual)) => commands(conditions) + seq![LineModel::Command(assertion(relation, residual, k))],
            None => seq![LineModel::Comment(collapsed(not_translated()))],
        }
    }
}

/// The indices of the constraints with no translation, ascending.
pub open spec fn untranslated_of(cs: Seq<Ast>, inputs: Seq<InputVariable>, table: Seq<(u64, String)>) -> Seq<usize>
    decreases cs.len(),
{
    if cs.len() == 0 {
        Seq::empty()
    } else {
        let rest = untranslated_of(cs.drop_last(), inputs, table);
        if translation(cs.last(), (cs.len() - 1) as nat, inputs, table) is None {
            rest.push((cs.len() - 1) as usize)
        } else {
            rest
        }
    }
}

/// The lines of a document: options, then the logic, the prelude, a
/// declaration and a range per input, every constraint, and the requests.
pub open spec fn document_lines(inputs: Seq<InputVariable>, cs: Seq<Ast>, logic: Seq<char>, table: Seq<(u64, String)>) -> Seq<
    LineModel,
> {
    seq![
        LineModel::Command(call_model("set-option"@, seq![atom(":produce-unsat-cores"@), atom("true"@)])),
        LineModel::Command(call_model("set-logic"@, seq![atom(logic)])),
    ] + commands(prelude_model()) + declaration_lines(inputs) + bound_lines(inputs, table) + constraint_lines(cs, inputs, table)
        + seq![
        LineModel::Command(call_model("check-sat"@, seq![])),
        LineModel::Command(call_model("get-model"@, seq![])),
    ]
}

/// An SMT-LIB2 document, and which constraints it left out: a solver's
/// verdict says nothing about those.
#[derive(Debug)]
pub struct Document {
    pub text: String,
    /// Indices into the constraints given, for those that could not be
    /// expressed.
    pub untranslated: Vec<usize>,
}

/// One constraint as its conditions, a relation and a residual; see
/// [`translation`].
fn translate(c: &Ast, index: usize, inputs: &[InputVariable], table: &[(u64, String)]) -> (r: Option<
    (Vec<Sexp>, &'static str, Sexp),
>)
    ensures
        match (r, translation(*c, index as nat, inputs@, table@)) {
            (Some((conditions, relation, residual)), Some((cs, rel, res))) => conditions@.map_values(|s: Sexp| s@) == cs
                && relation@ == rel && residual@ == res,
            (None, None) => true,
            _ => false,
        },
{
    if !c.is_constraint() {
        return None;
    }
    let program = rewrite_booleans(Program { body: clone_block(&c.program().body), frame_size: c.program().frame_size });
    assert(program@.body == rewritten_block(c.spec_program()@.body));
    let mut names = Names {
        symbols: c.symbols(),
        inputs,
        constraint: index,
        table,
        conditions: Vec::new(),
        auxiliaries: 0,
    };
    proof {
        assert(names.st().conditions =~= Seq::<SexpModel>::empty());
    }
    let body = &program.body;
    if body.assignments.len() == 0 {
        match &body.result.kind {
            Kind::Binary { op: BinaryOp::Add, lhs, rhs } => {
                assert(body@.result.kind == KindModel::Binary { op: BinaryOp::Add, lhs: Box::new(lhs@), rhs: Box::new(rhs@) });
                let marked = match &rhs.kind {
                    Kind::Literal(bits) => {
                        assert(rhs@.kind == KindModel::Literal(*bits));
                        *bits == EPSILON_BITS
                    },
                    _ => false,
                };
                if marked {
                    return match names.expression(lhs) {
                        Some(residual) => Some((names.conditions, "<", residual)),
                        None => None,
                    };
                }
            },
            _ => {
                assert(strict_residual(body@.result) is None);
            },
        }
    }
    match names.block(body) {
        Some(residual) => Some((names.conditions, "<=", residual)),
        None => None,
    }
}

/// The options, the logic and the prelude.
fn emit_header(script: &mut Script, logic: &SmtLogic)
    ensures
        final(script).lines() == old(script).lines() + seq![
            LineModel::Command(call_model("set-option"@, seq![atom(":produce-unsat-cores"@), atom("true"@)])),
            LineModel::Command(call_model("set-logic"@, seq![atom(logic.spec_name())])),
        ] + commands(prelude_model()),
{
    let ghost start = script.lines();
    script.command(call2("set-option", Sexp::atom(":produce-unsat-cores"), Sexp::atom("true")));
    script.command(call1("set-logic", Sexp::atom(logic.to_text().as_str())));
    let ghost header = script.lines();
    let helpers = prelude();
    proof {
        assert(prelude_model().take(0) =~= Seq::<SexpModel>::empty());
        assert(header + commands(prelude_model().take(0)) =~= header);
    }
    let mut i: usize = 0;
    while i < helpers.len()
        invariant
            i <= helpers@.len(),
            helpers@.map_values(|s: Sexp| s@) == prelude_model(),
            script.lines() == header + commands(prelude_model().take(i as int)),
        decreases helpers@.len() - i,
    {
        script.command(helpers[i].duplicate());
        proof {
            assert(helpers@.map_values(|s: Sexp| s@)[i as int] == helpers@[i as int]@);
            assert(commands(prelude_model().take(i + 1)) =~= commands(prelude_model().take(i as int)).push(
                LineModel::Command(helpers@[i as int]@),
            ));
        }
        i += 1;
    }
    proof {
        assert(prelude_model().take(helpers@.len() as int) =~= prelude_model());
        assert(script.lines() =~= start + seq![
            LineModel::Command(call_model("set-option"@, seq![atom(":produce-unsat-cores"@), atom("true"@)])),
            LineModel::Command(call_model("set-logic"@, seq![atom(logic.spec_name())])),
        ] + commands(prelude_model()));
    }
}

/// A declaration per input.
fn emit_declarations(script: &mut Script, inputs: &[InputVariable])
    ensures
        final(script).lines() == old(script).lines() + declaration_lines(inputs@),
{
    let ghost start = script.lines();
    proof {
        assert(start + declaration_lines(inputs@.take(0)) =~= start);
    }
    let mut i: usize = 0;
    while i < inputs.len()
        invariant
            i <= inputs@.len(),
            script.lines() == start + declaration_lines(inputs@.take(i as int)),
        decreases inputs@.len() - i,
    {
        script.command(call2("declare-const", Sexp::symbol(inputs[i].name.as_str()), Sexp::atom("Real")));
        proof {
            assert(declaration_lines(inputs@.take(i + 1)) =~= declaration_lines(inputs@.take(i as int)).push(
                LineModel::Command(declaration(symbol_model(inputs@[i as int].name@))),
            ));
        }
        i += 1;
    }
    proof {
        assert(inputs@.take(inputs@.len() as int) =~= inputs@);
    }
}

/// A range per input with finite bounds.
fn emit_bounds(script: &mut Script, inputs: &[InputVariable], table: &[(u64, String)])
    ensures
        final(script).lines() == old(script).lines() + bound_lines(inputs@, table@),
{
    let ghost start = script.lines();
    proof {
        assert(inputs@.take(0) =~= Seq::<InputVariable>::empty());
        assert(start + bound_lines(inputs@.take(0), table@) =~= start);
    }
    let mut i: usize = 0;
    while i < inputs.len()
        invariant
            i <= inputs@.len(),
            script.lines() == start + bound_lines(inputs@.take(i as int), table@),
        decreases inputs@.len() - i,
    {
        proof {
            assert(inputs@.take(i + 1).drop_last() =~= inputs@.take(i as int));
        }
        let input = &inputs[i];
        match (real_term(input.lower_bound, table), real_term(input.upper_bound, table)) {
            (Some(low), Some(high)) => {
                let name = Sexp::symbol(input.name.as_str());
                script.command(
                    call1("assert", call2("and", call2(">=", name.duplicate(), low), call2("<=", name, high))),
                );
            },
            _ => {},
        }
        i += 1;
    }
    proof {
        assert(inputs@.take(inputs@.len() as int) =~= inputs@);
    }
}

/// One constraint's lines.
fn emit_constraint(script: &mut Script, inputs: &[InputVariable], constraint: &Ast, k: usize, table: &[(u64, String)]) -> (translated: bool)
    ensures
        final(script).lines() == old(script).lines() + seq![LineModel::Comment(collapsed(constraint.spec_source()))] + match translation(
            *constraint,
            k as nat,
            inputs@,
            table@,
        ) {
            Some((conditions, relation, residual)) => commands(conditions) + seq![LineModel::Command(assertion(relation, residual, k as nat))],
            None => seq![LineModel::Comment(collapsed(not_translated()))],
        },
        translated == translation(*constraint, k as nat, inputs@, table@) is Some,
{
    let ghost before = script.lines();
    script.comment(constraint.source());
    let ghost commented = script.lines();
    match translate(constraint, k, inputs, table) {
        Some((conditions, relation, residual)) => {
            let ghost models = conditions@.map_values(|s: Sexp| s@);
            let ghost res = residual@;
            proof {
                assert(commented + commands(models.take(0)) =~= commented);
            }
            let mut j: usize = 0;
            while j < conditions.len()
                invariant
                    j <= conditions@.len(),
                    models == conditions@.map_values(|s: Sexp| s@),
                    script.lines() == commented + commands(models.take(j as int)),
                decreases conditions@.len() - j,
            {
                script.command(conditions[j].duplicate());
                proof {
                    assert(commands(models.take(j + 1)) =~= commands(models.take(j as int)).push(
                        LineModel::Command(models[j as int]),
                    ));
                }
                j += 1;
            }
            proof {
                assert(models.take(conditions@.len() as int) =~= models);
            }
            let name = core_name(k);
            let named = call3(
                "!",
                call2(relation, residual, Sexp::atom("0.0")),
                Sexp::atom(":named"),
                Sexp::atom(name.as_str()),
            );
            script.command(call1("assert", named));
            proof {
                assert(script.lines() =~= before + seq![LineModel::Comment(collapsed(constraint.spec_source()))] + (
                commands(models) + seq![LineModel::Command(assertion(relation@, res, k as nat))]));
            }
            true
        },
        None => {
            script.comment("  NOT TRANSLATED - outside the declared logic, left unasserted");
            false
        },
    }
}

/// Every constraint; the indices of those left untranslated.
fn emit_constraints(script: &mut Script, inputs: &[InputVariable], constraints: &[Ast], table: &[(u64, String)]) -> (untranslated: Vec<usize>)
    ensures
        final(script).lines() == old(script).lines() + constraint_lines(constraints@, inputs@, table@),
        untranslated@ == untranslated_of(constraints@, inputs@, table@),
{
    let ghost start = script.lines();
    proof {
        assert(constraints@.take(0) =~= Seq::<Ast>::empty());
        assert(start + constraint_lines(constraints@.take(0), inputs@, table@) =~= start);
    }
    let mut untranslated: Vec<usize> = Vec::new();
    let mut k: usize = 0;
    while k < constraints.len()
        invariant
            k <= constraints@.len(),
            script.lines() == start + constraint_lines(constraints@.take(k as int), inputs@, table@),
            untranslated@ == untranslated_of(constraints@.take(k as int), inputs@, table@),
        decreases constraints@.len() - k,
    {
        proof {
            assert(constraints@.take(k + 1).drop_last() =~= constraints@.take(k as int));
            assert(constraints@.take(k + 1).last() == constraints@[k as int]);
        }
        let translated = emit_constraint(script, inputs, &constraints[k], k, table);
        if !translated {
            untranslated.push(k);
        }
        proof {
            assert(script.lines() =~= start + constraint_lines(constraints@.take(k + 1), inputs@, table@));
        }
        k += 1;
    }
    proof {
        assert(constraints@.take(constraints@.len() as int) =~= constraints@);
    }
    untranslated
}

/// The SMT-LIB2 document of `constraints` over the box `inputs`, declaring
/// `logic`; see [`document_lines`]. `table` gives the decimal text of each
/// literal magnitude; a literal it lacks has no term, and takes its
/// constraint into `untranslated` with it.
pub fn emit(inputs: &[InputVariable], constraints: &[Ast], logic: &SmtLogic, table: &[(u64, String)]) -> (document: Document)
    ensures
        document.text@ == script_text(document_lines(inputs@, constraints@, logic.spec_name(), table@)),
        document.untranslated@ == untranslated_of(constraints@, inputs@, table@),
{
    let mut script = Script::new();
    emit_header(&mut script, logic);
    emit_declarations(&mut script, inputs);
    emit_bounds(&mut script, inputs, table);
    let untranslated = emit_constraints(&mut script, inputs, constraints, table);
    script.command(call0("check-sat"));
    script.command(call0("get-model"));
    proof {
        assert(script.lines() =~= document_lines(inputs@, constraints@, logic.spec_name(), table@));
    }
    Document { text: script.render(), untranslated }
}

// ------------------------------------------------------------ the literal table

/// Some literal of `e` has the magnitude `m`.
pub open spec fn literal_in(e: ExprModel, m: u64) -> bool
    decreases e,
{
    match e.kind {
        KindModel::Literal(bits) => bits % SIGN_BIT == m,
        KindModel::Global(_) => false,
        KindModel::Local(_) => false,
        KindModel::DynamicIndex(index) => literal_in(*index, m),
        KindModel::Unary { arg, .. } => literal_in(*arg, m),
        KindModel::Binary { lhs, rhs, .. } => literal_in(*lhs, m) || literal_in(*rhs, m),
        KindModel::Compare { lhs, rhs, .. } => literal_in(*lhs, m) || literal_in(*rhs, m),
        KindModel::NearEq { lhs, rhs, .. } => literal_in(*lhs, m) || literal_in(*rhs, m),
        KindModel::Aggregate { lower, upper, body, .. } => literal_in(*lower, m) || literal_in(*upper, m) || literal_in_block(
            *body,
            m,
        ),
        KindModel::Block(block) => literal_in_block(*block, m),
        KindModel::Fold { terms, .. } => literal_in_terms(terms, m),
    }
}

pub open spec fn literal_in_terms(terms: Seq<ExprModel>, m: u64) -> bool
    decreases terms,
{
    terms.len() > 0 && (literal_in_terms(terms.drop_last(), m) || literal_in(terms.last(), m))
}

pub open spec fn literal_in_assignments(assignments: Seq<AssignmentModel>, m: u64) -> bool
    decreases assignments,
{
    assignments.len() > 0 && (literal_in_assignments(assignments.drop_last(), m) || literal_in(assignments.last().value, m))
}

pub open spec fn literal_in_block(b: BlockModel, m: u64) -> bool
    decreases b,
{
    literal_in_assignments(b.assignments, m) || literal_in(b.result, m)
}

/// The magnitudes whose decimal text a document over `inputs` and `cs` can
/// ask for: every literal of each constraint's residual, both bounds of each
/// input, and the empty sum and product.
pub open spec fn needed_magnitude(inputs: Seq<InputVariable>, cs: Seq<Ast>, m: u64) -> bool {
    ||| m == 0
    ||| m == 0x3FF0_0000_0000_0000u64
    ||| bound_magnitudes(inputs).contains(m)
    ||| exists|k: int| 0 <= k < cs.len() && literal_in_block(rewritten_block((#[trigger] cs[k]).spec_program()@.body), m)
}

/// Both bounds' magnitudes of each input, in order.
pub open spec fn bound_magnitudes(inputs: Seq<InputVariable>) -> Seq<u64>
    decreases inputs.len(),
{
    if inputs.len() == 0 {
        Seq::empty()
    } else {
        bound_magnitudes(inputs.drop_last()) + seq![
            (inputs.last().lower_bound % SIGN_BIT) as u64,
            (inputs.last().upper_bound % SIGN_BIT) as u64,
        ]
    }
}

fn collect_literals(e: &Expr, found: &mut Vec<u64>)
    ensures
        forall|m: u64| #[trigger] final(found)@.contains(m) <==> old(found)@.contains(m) || literal_in(e@, m),
    decreases e,
{
    match &e.kind {
        Kind::Literal(bits) => {
            assert(e@.kind == KindModel::Literal(*bits));
            let ghost before = found@;
            found.push(*bits % 0x8000_0000_0000_0000);
            proof {
                broadcast use vstd::seq_lib::lemma_seq_contains_after_push;

                assert(found@ == before.push((*bits % 0x8000_0000_0000_0000) as u64));
            }
        },
        Kind::Global(_) => {},
        Kind::Local(_) => {},
        Kind::DynamicIndex(index) => collect_literals(index, found),
        Kind::Unary { arg, .. } => collect_literals(arg, found),
        Kind::Binary { lhs, rhs, .. } => {
            collect_literals(lhs, found);
            collect_literals(rhs, found);
        },
        Kind::Compare { lhs, rhs, .. } => {
            collect_literals(lhs, found);
            collect_literals(rhs, found);
        },
        Kind::NearEq { lhs, rhs, .. } => {
            collect_literals(lhs, found);
            collect_literals(rhs, found);
        },
        Kind::Aggregate { lower, upper, body, .. } => {
            collect_literals(lower, found);
            collect_literals(upper, found);
            collect_block_literals(body, found);
        },
        Kind::Block(block) => collect_block_literals(block, found),
        Kind::Fold { terms, .. } => {
            let ghost model = e@.kind->Fold_terms;
            let ghost before = found@;
            let mut i: usize = 0;
            while i < terms.len()
                invariant
                    e.kind == (Kind::Fold { kind: e.kind->Fold_kind, terms: *terms }),
                    model == e@.kind->Fold_terms,
                    model.len() == terms@.len(),
                    forall|j: int| 0 <= j < terms@.len() ==> model[j] == (#[trigger] terms@[j])@,
                    i <= terms@.len(),
                    forall|m: u64| #[trigger] found@.contains(m) <==> before.contains(m) || literal_in_terms(model.take(i as int), m),
                decreases terms@.len() - i,
            {
                assert(decreases_to!(*e => e.kind->Fold_terms@[i as int]));
                proof {
                    assert(model.take(i + 1).drop_last() =~= model.take(i as int));
                    assert(model.take(i + 1).last() == model[i as int]);
                }
                collect_literals(&terms[i], found);
                i += 1;
            }
            proof {
                assert(model.take(model.len() as int) =~= model);
            }
        },
    }
}

fn collect_block_literals(b: &Block, found: &mut Vec<u64>)
    ensures
        forall|m: u64| #[trigger] final(found)@.contains(m) <==> old(found)@.contains(m) || literal_in_block(b@, m),
    decreases b,
{
    let ghost model = b@.assignments;
    let ghost before = found@;
    let mut i: usize = 0;
    while i < b.assignments.len()
        invariant
            model == b@.assignments,
            model.len() == b.assignments@.len(),
            i <= b.assignments@.len(),
            forall|m: u64| #[trigger] found@.contains(m) <==> before.contains(m) || literal_in_assignments(model.take(i as int), m),
        decreases b.assignments@.len() - i,
    {
        assert(decreases_to!(*b => b.assignments@[i as int].value));
        proof {
            assert(model.take(i + 1).drop_last() =~= model.take(i as int));
            assert(model.take(i + 1).last() == model[i as int]);
        }
        collect_literals(&b.assignments[i].value, found);
        i += 1;
    }
    proof {
        assert(model.take(model.len() as int) =~= model);
    }
    collect_literals(&b.result, found);
}

/// Every magnitude a document over `inputs` and `constraints` can ask the
/// literal table for; see [`needed_magnitude`]. A host writes the decimal
/// text of each, and hands the table to [`emit`].
pub fn literal_magnitudes(inputs: &[InputVariable], constraints: &[Ast]) -> (found: Vec<u64>)
    ensures
        forall|m: u64| #[trigger] found@.contains(m) <==> needed_magnitude(inputs@, constraints@, m),
{
    broadcast use vstd::seq_lib::lemma_seq_contains_after_push;

    let mut found: Vec<u64> = Vec::new();
    found.push(0);
    found.push(0x3FF0_0000_0000_0000);
    let ghost base = found@;
    let mut i: usize = 0;
    while i < inputs.len()
        invariant
            i <= inputs@.len(),
            base == seq![0u64, 0x3FF0_0000_0000_0000u64],
            found@ == base + bound_magnitudes(inputs@.take(i as int)),
        decreases inputs@.len() - i,
    {
        found.push(inputs[i].lower_bound % 0x8000_0000_0000_0000);
        found.push(inputs[i].upper_bound % 0x8000_0000_0000_0000);
        proof {
            assert(inputs@.take(i + 1).drop_last() =~= inputs@.take(i as int));
            assert(found@ =~= base + bound_magnitudes(inputs@.take(i + 1)));
        }
        i += 1;
    }
    proof {
        assert(inputs@.take(inputs@.len() as int) =~= inputs@);
        let bounds = bound_magnitudes(inputs@);
        let whole = base + bounds;
        assert(found@ == whole);
        assert forall|m: u64| #[trigger] found@.contains(m) <==> base.contains(m) || bounds.contains(m) by {
            if whole.contains(m) {
                let t = choose|t: int| 0 <= t < whole.len() && whole[t] == m;
                if t >= 2 {
                    assert(whole[t] == bounds[t - 2]);
                } else {
                    assert(whole[t] == base[t]);
                }
            }
            if bounds.contains(m) {
                let t = choose|t: int| 0 <= t < bounds.len() && bounds[t] == m;
                assert(whole[t + 2] == m);
            }
            if base.contains(m) {
                let t = choose|t: int| 0 <= t < base.len() && base[t] == m;
                assert(whole[t] == m);
            }
        }
    }
    let ghost with_bounds = found@;
    let mut k: usize = 0;
    while k < constraints.len()
        invariant
            k <= constraints@.len(),
            forall|m: u64| #[trigger] found@.contains(m) <==> with_bounds.contains(m) || exists|j: int|
                0 <= j < k && literal_in_block(rewritten_block((#[trigger] constraints@[j]).spec_program()@.body), m),
            forall|m: u64| #[trigger] with_bounds.contains(m) <==> base.contains(m) || bound_magnitudes(inputs@).contains(m),
        decreases constraints@.len() - k,
    {
        let c = &constraints[k];
        let program = rewrite_booleans(Program { body: clone_block(&c.program().body), frame_size: c.program().frame_size });
        let ghost before = found@;
        collect_block_literals(&program.body, &mut found);
        proof {
            assert forall|m: u64| #[trigger] found@.contains(m) <==> with_bounds.contains(m) || exists|j: int|
                0 <= j < k + 1 && literal_in_block(rewritten_block((#[trigger] constraints@[j]).spec_program()@.body), m) by {
                if exists|j: int|
                    0 <= j < k + 1 && literal_in_block(rewritten_block((#[trigger] constraints@[j]).spec_program()@.body), m) {
                    let j = choose|j: int|
                        0 <= j < k + 1 && literal_in_block(rewritten_block((#[trigger] constraints@[j]).spec_program()@.body), m);
                    if j < k {
                        assert(before.contains(m));
                    }
                }
            }
        }
        k += 1;
    }
    proof {
        assert forall|m: u64| #[trigger] found@.contains(m) <==> needed_magnitude(inputs@, constraints@, m) by {
            assert(base.contains(0u64)) by {
                assert(base[0] == 0u64);
            }
            assert(base.contains(0x3FF0_0000_0000_0000u64)) by {
                assert(base[1] == 0x3FF0_0000_0000_0000u64);
            }
            if base.contains(m) {
                let t = choose|t: int| 0 <= t < base.len() && base[t] == m;
            }
        }
    }
    found
}

} // verus!
