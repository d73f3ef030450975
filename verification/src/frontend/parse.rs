//! Tokens to tree, resolving names as it goes.
//!
//! The grammar, loosest binding first:
//!
//! ```text
//! expression   : block END
//! block        : (assignment ';')* 'return'? result ';'?
//! assignment   : 'var' NAME '=' scalar
//! result       : condition            (at the root)
//!              | scalar               (in a lambda body)
//! condition    : '(' condition ')'
//!              | scalar ('<' | '<=' | '>' | '>=') scalar
//!              | scalar '==' scalar '+/-' literal
//!              | scalar
//! scalar       : term (('+' | '-') term)*
//! term         : unary (('*' | '/' | '%') unary)*
//! unary        : '-' unary | power
//! power        : primary ('^' exponent)*
//! exponent     : '-' power | primary
//! primary      : NUMBER | 'pi' | 'e' | NAME
//!              | 'var' '[' scalar ']'
//!              | ('sum' | 'prod') '(' scalar ',' scalar ',' NAME '->' block ')'
//!              | UNARY '(' scalar ')'
//!              | 'log' '(' scalar (',' scalar)? ')'
//!              | ('max' | 'min') '(' scalar ',' scalar ')'
//!              | '(' scalar ')'
//! literal      : '-'? (NUMBER | 'pi' | 'e')
//! ```
//!
//! A comparison can only be the result of the whole expression: a lambda
//! body and an assignment take a scalar. Names are resolved innermost scope
//! first, and a name is bound only once its own value has been read, so in
//! `var x = x` the right-hand `x` is the enclosing one.
use vstd::prelude::*;

use crate::ast::{
    block_has_dynamic, has_dynamic, lemma_scoped_grows, model_block, model_expr, scoped,
    scoped_block, AggregateKind, Assignment, BinaryOp, Block, BlockModel, CompareOp, Expr,
    ExprModel, Kind, KindModel, LocalSlot, Program, UnaryOp,
};
use crate::frontend::rewrite::{block_free_of_booleans, free_of_booleans};
use crate::frontend::scope::{distinct_names, global_names, lemma_lookup_below, lookup, slots_below};
use crate::diagnostics::Span;
use crate::frontend::grammar::{
    accepts, compares_before_close, g_assignments, g_block, g_condition, g_exponent, g_factors, g_literal, g_power,
    g_powers, g_primary, g_scalar, g_term, g_terms, g_unary, unfold_assignments, unfold_block, unfold_condition,
    unfold_exponent, unfold_factors, unfold_power, unfold_powers, unfold_primary, unfold_scalar, unfold_term,
    unfold_terms, unfold_unary,
};
use crate::frontend::lex::{is_name_part, is_name_start, lex, lexed, well_ordered, Tok, Token};
use crate::ast::unary_keyword;
use crate::text::same_text;
use crate::frontend::scope::TranslationState;
use crate::text::{push_char, string_of_range};
use vstd::string::StringExecFns;

verus! {

/// The bits of `pi`.
pub const PI_BITS: u64 = 0x4009_21FB_5444_2D18;

/// The bits of `e`.
pub const EULER_BITS: u64 = 0x4005_BF0A_8B14_5769;

/// The bit that flips a binary64 value's sign.
pub const SIGN_FLIP: u64 = 0x8000_0000_0000_0000;

/// `e` is a comparison of two scalars when `boolean`, and a scalar
/// otherwise: no comparison sits below the root.
pub open spec fn is_condition(e: ExprModel, boolean: bool) -> bool {
    if boolean {
        match e.kind {
            KindModel::Compare { lhs, rhs, .. } => free_of_booleans(*lhs) && free_of_booleans(*rhs),
            KindModel::NearEq { lhs, rhs, .. } => free_of_booleans(*lhs) && free_of_booleans(*rhs),
            _ => false,
        }
    } else {
        free_of_booleans(e)
    }
}

/// Everything compilation learns from the text.
pub struct Lowered {
    pub program: Program,
    /// Distinct statically referenced names in first-reference order.
    pub symbols: Vec<String>,
    pub contains_dynamic_lookup: bool,
    pub is_constraint: bool,
}

/// Where the text stopped being babel, and what was found there, as
/// character offsets.
pub struct SyntaxError {
    pub message: String,
    pub start: usize,
    pub end: usize,
    /// The offending character could not start a token.
    pub from_lexer: bool,
}

/// A character offset as a span bound: the offset, or `u32::MAX` past it.
pub open spec fn bound_of(i: usize) -> u32 {
    if i > u32::MAX {
        u32::MAX
    } else {
        i as u32
    }
}

/// A character offset as a span bound.
pub fn offset(i: usize) -> (o: u32)
    ensures
        i <= u32::MAX ==> o == i,
        i > u32::MAX ==> o == u32::MAX,
        o == bound_of(i),
{
    if i > u32::MAX as usize {
        u32::MAX
    } else {
        i as u32
    }
}

struct Parser {
    chars: Vec<char>,
    tokens: Vec<Token>,
    pos: usize,
    /// Where the last consumed token ended.
    last_end: usize,
    state: TranslationState,
}

impl Parser {
    spec fn inv(&self) -> bool {
        &&& well_ordered(self.tokens@, self.chars@.len())
        &&& self.pos < self.tokens@.len()
        &&& self.last_end <= self.chars@.len()
        &&& slots_below(self.state.scope_stack@, self.state.next_slot)
        &&& distinct_names(self.state.globals@)
    }

    spec fn keeps(&self, old: &Parser) -> bool {
        &&& self.chars == old.chars
        &&& self.tokens == old.tokens
        &&& self.pos >= old.pos
        &&& self.state.next_slot >= old.state.next_slot
        &&& self.state.globals@.len() >= old.state.globals@.len()
        &&& self.state.globals@.len() + old.pos <= old.state.globals@.len() + self.pos
        &&& self.state.next_slot + old.pos <= old.state.next_slot + self.pos
    }

    /// One more variable and one more slot for every token left: more than
    /// the rest of the text can ask for.
    spec fn room(&self) -> bool {
        &&& self.state.globals@.len() + (self.tokens@.len() - self.pos) < u32::MAX
        &&& self.state.next_slot + (self.tokens@.len() - self.pos) < u32::MAX
    }

    /// What was scoped in an earlier state is scoped in this one.
    proof fn lemma_grows(&self, e: ExprModel, earlier: &Parser)
        requires
            scoped(e, earlier.state.next_slot as nat, earlier.state.globals@.len() as nat),
            self.keeps(earlier),
        ensures
            scoped(e, self.state.next_slot as nat, self.state.globals@.len() as nat),
    {
        lemma_scoped_grows(
            e,
            earlier.state.next_slot as nat,
            earlier.state.globals@.len() as nat,
            self.state.next_slot as nat,
            self.state.globals@.len() as nat,
        );
    }

    fn peek(&self) -> (tok: Tok)
        requires
            self.inv(),
        ensures
            tok == self.tokens@[self.pos as int].tok,
    {
        self.tokens[self.pos].tok
    }

    /// The token after the current one; the end when there is none.
    fn peek_second(&self) -> (tok: Tok)
        requires
            self.inv(),
        ensures
            self.pos + 1 < self.tokens@.len() ==> tok == self.tokens@[self.pos + 1].tok,
    {
        if self.pos < self.tokens.len() - 1 {
            self.tokens[self.pos + 1].tok
        } else {
            Tok::End
        }
    }

    /// Consumes the current token, which is not the end.
    fn advance(&mut self) -> (token: Token)
        requires
            old(self).inv(),
            old(self).tokens@[old(self).pos as int].tok != Tok::End,
        ensures
            final(self).inv(),
            final(self).keeps(old(self)),
            final(self).pos == old(self).pos + 1,
            final(self).state == old(self).state,
            token == old(self).tokens@[old(self).pos as int],
            token.start <= token.end <= final(self).chars@.len(),
    {
        let token = self.tokens[self.pos];
        let _n = self.tokens.len();
        proof {
            if self.pos == self.tokens@.len() - 1 {
                assert(self.tokens@.last().tok == Tok::End);
            }
        }
        self.pos = self.pos + 1;
        self.last_end = token.end;
        token
    }

    /// What a syntax error at token `t` says: the token's text, or
    /// `<EOF>` at the end.
    spec fn mismatch_text(&self, t: Token) -> Seq<char> {
        "mismatched input '"@ + (if t.tok == Tok::End {
            "<EOF>"@
        } else {
            self.chars@.subrange(t.start as int, t.end as int)
        }) + "'"@
    }

    /// The error at token `t`.
    spec fn error_at(&self, t: Token, e: SyntaxError) -> bool {
        &&& e.message@ == self.mismatch_text(t)
        &&& e.start == t.start
        &&& e.end == t.end
        &&& !e.from_lexer
    }

    /// The error at the current token.
    fn error(&self) -> (e: SyntaxError)
        requires
            self.inv(),
        ensures
            self.error_at(self.tokens@[self.pos as int], e),
    {
        let token = self.tokens[self.pos];
        let mut message = String::from_str("mismatched input '");
        if token.tok == Tok::End {
            message.append("<EOF>");
        } else {
            let text = string_of_range(&self.chars, token.start, token.end);
            message.append(text.as_str());
        }
        message.append("'");
        SyntaxError { message, start: token.start, end: token.end, from_lexer: false }
    }

    /// Consumes a token of kind `tok`, or fails at the current one.
    fn expect(&mut self, tok: Tok) -> (r: Result<Token, SyntaxError>)
        requires
            old(self).inv(),
            tok != Tok::End,
        ensures
            final(self).inv(),
            final(self).keeps(old(self)),
            final(self).state == old(self).state,
            r is Ok <==> old(self).tokens@[old(self).pos as int].tok == tok,
            r is Ok ==> final(self).pos == old(self).pos + 1 && r->Ok_0 == old(self).tokens@[old(self).pos as int],
            r matches Ok(t) ==> t.start <= t.end <= final(self).chars@.len(),
            r matches Err(e) ==> *final(self) == *old(self) && old(self).error_at(old(self).tokens@[old(self).pos as int], e),
    {
        if self.peek() == tok {
            Ok(self.advance())
        } else {
            Err(self.error())
        }
    }

    /// The span from character `start` to the end of the last token consumed.
    fn span_from(&self, start: usize) -> (span: Span)
        ensures
            span.start == bound_of(start),
            span.end == bound_of(self.last_end),
    {
        Span::new(offset(start), offset(self.last_end))
    }

    fn start_of_current(&self) -> (start: usize)
        requires
            self.inv(),
        ensures
            start == self.tokens@[self.pos as int].start,
            start <= self.chars@.len(),
    {
        self.tokens[self.pos].start
    }

    /// `bits` is what `literal_bits` gives for the text of `token`.
    spec fn reads_as<F: Fn(&str) -> u64>(&self, token: Token, bits: u64, literal_bits: F) -> bool {
        exists|s: &str| s@ == self.chars@.subrange(token.start as int, token.end as int) && literal_bits.ensures((s,), bits)
    }

    /// The bits of the number token `token`.
    fn number_bits<F: Fn(&str) -> u64>(&self, token: Token, literal_bits: &F) -> (bits: u64)
        requires
            token.start <= token.end <= self.chars@.len(),
            forall|s: &str| literal_bits.requires((s,)),
        ensures
            self.reads_as(token, bits, *literal_bits),
    {
        let text = string_of_range(&self.chars, token.start, token.end);
        let s = text.as_str();
        let bits = literal_bits(s);
        proof {
            assert(literal_bits.ensures((s,), bits));
        }
        bits
    }

    /// Where a literal's magnitude stands: past its `-`, if it has one.
    spec fn magnitude_at(&self) -> int {
        if self.tokens@[self.pos as int].tok == Tok::Minus {
            self.pos + 1
        } else {
            self.pos as int
        }
    }

    /// `bits`, negated when `negative`.
    spec fn signed(negative: bool, bits: u64) -> u64 {
        if negative {
            bits ^ SIGN_FLIP
        } else {
            bits
        }
    }

    /// `literal : '-'? (NUMBER | 'pi' | 'e')`, as bits.
    fn literal<F: Fn(&str) -> u64>(&mut self, literal_bits: &F) -> (r: Result<u64, SyntaxError>)
        requires
            old(self).inv(),
            forall|s: &str| literal_bits.requires((s,)),
        ensures
            final(self).inv(),
            final(self).keeps(old(self)),
            final(self).state == old(self).state,
            ({
                let negative = old(self).tokens@[old(self).pos as int].tok == Tok::Minus;
                let m = old(self).magnitude_at();
                let t = old(self).tokens@[m];
                &&& m < old(self).tokens@.len()
                &&& (r is Ok <==> (t.tok == Tok::Number || t.tok == Tok::Pi || t.tok == Tok::Euler))
                &&& r is Ok ==> final(self).pos == m + 1
                &&& r is Err ==> final(self).pos == m
                &&& r matches Err(e) ==> old(self).error_at(t, e)
                &&& t.tok == Tok::Pi ==> r == Ok::<u64, SyntaxError>(Self::signed(negative, PI_BITS))
                &&& t.tok == Tok::Euler ==> r == Ok::<u64, SyntaxError>(Self::signed(negative, EULER_BITS))
                &&& r is Ok ==> g_literal(old(self).tokens@, old(self).pos as int) == Some(final(self).pos as int)
                &&& r is Ok <==> g_literal(old(self).tokens@, old(self).pos as int) is Some
                &&& t.tok == Tok::Number ==> exists|bits: u64|
                    old(self).reads_as(t, bits, *literal_bits) && r == Ok::<u64, SyntaxError>(Self::signed(negative, bits))
            }),
    {
        proof {
            if self.tokens@[self.pos as int].tok == Tok::Minus && self.pos + 1 >= self.tokens@.len() {
                assert(self.tokens@.last().tok == Tok::End);
            }
        }
        let negative = if self.peek() == Tok::Minus {
            self.advance();
            true
        } else {
            false
        };
        let magnitude = match self.peek() {
            Tok::Number => {
                let token = self.advance();
                self.number_bits(token, literal_bits)
            },
            Tok::Pi => {
                self.advance();
                PI_BITS
            },
            Tok::Euler => {
                self.advance();
                EULER_BITS
            },
            _ => return Err(self.error()),
        };
        proof {
            let m = old(self).magnitude_at();
            if old(self).tokens@[m].tok == Tok::Number {
                assert(old(self).reads_as(old(self).tokens@[m], magnitude, *literal_bits));
            }
        }
        Ok(
            if negative {
                magnitude ^ SIGN_FLIP
            } else {
                magnitude
            },
        )
    }

    /// Whether the `(` at the current position opens a parenthesised
    /// comparison: a comparison operator comes before its matching `)`.
    fn group_is_boolean(&self) -> (b: bool)
        requires
            self.inv(),
        ensures
            b == compares_before_close(self.tokens@, self.pos as int, 0),
    {
        let mut depth: usize = 0;
        let mut i = self.pos;
        while i < self.tokens.len()
            invariant
                self.inv(),
                self.pos <= i <= self.tokens@.len(),
                depth <= i - self.pos,
                compares_before_close(self.tokens@, i as int, depth as nat) == compares_before_close(
                    self.tokens@,
                    self.pos as int,
                    0,
                ),
            decreases self.tokens@.len() - i,
        {
            match self.tokens[i].tok {
                Tok::LeftParen => {
                    if depth < usize::MAX {
                        depth = depth + 1;
                    }
                },
                Tok::RightParen => {
                    if depth <= 1 {
                        return false;
                    }
                    depth = depth - 1;
                },
                Tok::Lt | Tok::Lte | Tok::Gt | Tok::Gte | Tok::EqEq => return true,
                Tok::End => return false,
                _ => {},
            }
            i += 1;
        }
        false
    }

    #[verifier::rlimit(80)]
    #[verifier::spinoff_prover]
    fn primary<F: Fn(&str) -> u64>(&mut self, literal_bits: &F) -> (r: Result<Expr, SyntaxError>)
        requires
            old(self).inv(),
            forall|s: &str| literal_bits.requires((s,)),
        ensures
            final(self).inv(),
            final(self).keeps(old(self)),
            r is Ok ==> final(self).state.scope_stack@.len() == old(self).state.scope_stack@.len(),
            r matches Ok(e) ==> scoped(e@, final(self).state.next_slot as nat, final(self).state.globals@.len() as nat)
                && free_of_booleans(e@) && final(self).state.contains_dynamic_lookup == (old(
                self,
            ).state.contains_dynamic_lookup || has_dynamic(e@)),
            r is Ok ==> final(self).pos > old(self).pos && g_primary(old(self).tokens@, old(self).pos as int) == Some(
                final(self).pos as int,
            ),
            old(self).room() && g_primary(old(self).tokens@, old(self).pos as int) is Some ==> r is Ok,
            r matches Err(e) ==> !e.from_lexer,
        decreases self.tokens@.len() - self.pos, 1nat,
    {
        proof {
            unfold_primary(self.tokens@, self.pos as int);
        }
        let start = self.start_of_current();
        let ghost s0 = *self;
        match self.peek() {
            Tok::Number => {
                let token = self.advance();
                let bits = self.number_bits(token, literal_bits);
                Ok(Expr::new(Kind::Literal(bits), self.span_from(start)))
            },
            Tok::Pi => {
                self.advance();
                Ok(Expr::new(Kind::Literal(PI_BITS), self.span_from(start)))
            },
            Tok::Euler => {
                self.advance();
                Ok(Expr::new(Kind::Literal(EULER_BITS), self.span_from(start)))
            },
            Tok::Name => {
                let token = self.advance();
                let name = string_of_range(&self.chars, token.start, token.end);
                let kind = match self.state.resolve_local(name.as_str()) {
                    Some(slot) => {
                        proof {
                            lemma_lookup_below(self.state.scope_stack@, name@, self.state.next_slot);
                        }
                        Kind::Local(slot)
                    },
                    None => {
                        if self.state.globals.len() >= u32::MAX as usize {
                            return Err(self.error());
                        }
                        Kind::Global(self.state.get_or_make_id(name.as_str()))
                    },
                };
                Ok(Expr::new(kind, self.span_from(start)))
            },
            Tok::Var => {
                self.advance();
                self.expect(Tok::LeftBracket)?;
                let subscript = self.scalar(literal_bits)?;
                let ghost s1 = *self;
                self.expect(Tok::RightBracket)?;
                self.state.contains_dynamic_lookup = true;
                let e = Expr::new(Kind::DynamicIndex(Box::new(subscript)), self.span_from(start));
                proof {
                    self.lemma_grows(subscript@, &s1);
                }
                Ok(e)
            },
            Tok::Sum | Tok::Prod => {
                let kind = if self.peek() == Tok::Sum {
                    AggregateKind::Sum
                } else {
                    AggregateKind::Prod
                };
                self.advance();
                self.expect(Tok::LeftParen)?;
                // Bounds see the enclosing scope: the parameter is bound only
                // in the body.
                let lower = self.scalar(literal_bits)?;
                let ghost s1 = *self;
                self.expect(Tok::Comma)?;
                let upper = self.scalar(literal_bits)?;
                let ghost s2 = *self;
                self.expect(Tok::Comma)?;
                let name_token = self.expect(Tok::Name)?;
                self.expect(Tok::Arrow)?;
                if self.state.next_slot == u32::MAX {
                    return Err(self.error());
                }
                let name = string_of_range(&self.chars, name_token.start, name_token.end);
                // One scope for the parameter and another, opened by the
                // block, for the body: a `var` inside shadows the parameter.
                self.state.push_scope();
                let param = self.state.declare(name.as_str());
                let ghost s3 = *self;
                let body = self.block(false, literal_bits);
                self.state.pop_scope();
                let (body, _) = body?;
                self.expect(Tok::RightParen)?;
                let e = Expr::new(
                    Kind::Aggregate {
                        kind,
                        lower: Box::new(lower),
                        upper: Box::new(upper),
                        param,
                        body: Box::new(body),
                    },
                    self.span_from(start),
                );
                proof {
                    self.lemma_grows(lower@, &s1);
                    self.lemma_grows(upper@, &s2);
                    assert(block_free_of_booleans(body@));
                }
                Ok(e)
            },
            Tok::Unary(op) => {
                self.advance();
                self.expect(Tok::LeftParen)?;
                let arg = self.scalar(literal_bits)?;
                let ghost s1 = *self;
                self.expect(Tok::RightParen)?;
                let e = Expr::new(Kind::Unary { op, arg: Box::new(arg) }, self.span_from(start));
                proof {
                    self.lemma_grows(arg@, &s1);
                }
                Ok(e)
            },
            Tok::Log => {
                self.advance();
                self.expect(Tok::LeftParen)?;
                let first = self.scalar(literal_bits)?;
                let ghost s1 = *self;
                if self.peek() == Tok::Comma {
                    self.advance();
                    let second = self.scalar(literal_bits)?;
                    let ghost s2 = *self;
                    self.expect(Tok::RightParen)?;
                    let e = Expr::new(
                        Kind::Binary { op: BinaryOp::LogB, lhs: Box::new(first), rhs: Box::new(second) },
                        self.span_from(start),
                    );
                    proof {
                        self.lemma_grows(first@, &s1);
                        self.lemma_grows(second@, &s2);
                    }
                    Ok(e)
                } else {
                    self.expect(Tok::RightParen)?;
                    let e = Expr::new(Kind::Unary { op: UnaryOp::Log10, arg: Box::new(first) }, self.span_from(start));
                    proof {
                        self.lemma_grows(first@, &s1);
                    }
                    Ok(e)
                }
            },
            Tok::Max | Tok::Min => {
                let op = if self.peek() == Tok::Max {
                    BinaryOp::Max
                } else {
                    BinaryOp::Min
                };
                self.advance();
                self.expect(Tok::LeftParen)?;
                let lhs = self.scalar(literal_bits)?;
                let ghost s1 = *self;
                self.expect(Tok::Comma)?;
                let rhs = self.scalar(literal_bits)?;
                let ghost s2 = *self;
                self.expect(Tok::RightParen)?;
                let e = Expr::new(Kind::Binary { op, lhs: Box::new(lhs), rhs: Box::new(rhs) }, self.span_from(start));
                proof {
                    self.lemma_grows(lhs@, &s1);
                    self.lemma_grows(rhs@, &s2);
                }
                Ok(e)
            },
            Tok::LeftParen => {
                // Grouping adds no node.
                self.advance();
                let inner = self.scalar(literal_bits)?;
                let ghost s1 = *self;
                self.expect(Tok::RightParen)?;
                proof {
                    self.lemma_grows(inner@, &s1);
                }
                Ok(inner)
            },
            _ => Err(self.error()),
        }
    }

    fn exponent<F: Fn(&str) -> u64>(&mut self, literal_bits: &F) -> (r: Result<Expr, SyntaxError>)
        requires
            old(self).inv(),
            forall|s: &str| literal_bits.requires((s,)),
        ensures
            final(self).inv(),
            final(self).keeps(old(self)),
            r is Ok ==> final(self).state.scope_stack@.len() == old(self).state.scope_stack@.len(),
            r matches Ok(e) ==> scoped(e@, final(self).state.next_slot as nat, final(self).state.globals@.len() as nat)
                && free_of_booleans(e@) && final(self).state.contains_dynamic_lookup == (old(
                self,
            ).state.contains_dynamic_lookup || has_dynamic(e@)),
            r is Ok ==> final(self).pos > old(self).pos && g_exponent(old(self).tokens@, old(self).pos as int) == Some(
                final(self).pos as int,
            ),
            old(self).room() && g_exponent(old(self).tokens@, old(self).pos as int) is Some ==> r is Ok,
            r matches Err(e) ==> !e.from_lexer,
        decreases self.tokens@.len() - self.pos, 2nat,
    {
        proof {
            unfold_exponent(self.tokens@, self.pos as int);
        }
        let start = self.start_of_current();
        if self.peek() == Tok::Minus {
            self.advance();
            let arg = self.power(literal_bits)?;
            Ok(Expr::new(Kind::Unary { op: UnaryOp::Negate, arg: Box::new(arg) }, self.span_from(start)))
        } else {
            self.primary(literal_bits)
        }
    }

    fn power<F: Fn(&str) -> u64>(&mut self, literal_bits: &F) -> (r: Result<Expr, SyntaxError>)
        requires
            old(self).inv(),
            forall|s: &str| literal_bits.requires((s,)),
        ensures
            final(self).inv(),
            final(self).keeps(old(self)),
            r is Ok ==> final(self).state.scope_stack@.len() == old(self).state.scope_stack@.len(),
            r matches Ok(e) ==> scoped(e@, final(self).state.next_slot as nat, final(self).state.globals@.len() as nat)
                && free_of_booleans(e@) && final(self).state.contains_dynamic_lookup == (old(
                self,
            ).state.contains_dynamic_lookup || has_dynamic(e@)),
            r is Ok ==> final(self).pos > old(self).pos && g_power(old(self).tokens@, old(self).pos as int) == Some(
                final(self).pos as int,
            ),
            old(self).room() && g_power(old(self).tokens@, old(self).pos as int) is Some ==> r is Ok,
            r matches Err(e) ==> !e.from_lexer,
        decreases self.tokens@.len() - self.pos, 3nat,
    {
        proof {
            unfold_power(self.tokens@, self.pos as int);
        }
        let start = self.start_of_current();
        let mut base = self.primary(literal_bits)?;
        while self.peek() == Tok::Caret
            invariant
                self.pos > old(self).pos,
                g_power(old(self).tokens@, old(self).pos as int) == g_powers(old(self).tokens@, self.pos as int),
                scoped(base@, self.state.next_slot as nat, self.state.globals@.len() as nat),
                free_of_booleans(base@),
                self.state.contains_dynamic_lookup == (old(self).state.contains_dynamic_lookup || has_dynamic(base@)),
                self.inv(),
                self.keeps(&*old(self)),
                self.state.scope_stack@.len() == old(self).state.scope_stack@.len(),
                forall|s: &str| literal_bits.requires((s,)),
            decreases self.tokens@.len() - self.pos,
        {
            proof {
                unfold_powers(self.tokens@, self.pos as int);
            }
            self.advance();
            let ghost s1 = *self;
            let exponent = self.exponent(literal_bits)?;
            proof {
                self.lemma_grows(base@, &s1);
            }
            base = Expr::new(
                Kind::Binary { op: BinaryOp::Pow, lhs: Box::new(base), rhs: Box::new(exponent) },
                self.span_from(start),
            );
        }
        proof {
            unfold_powers(self.tokens@, self.pos as int);
        }
        Ok(base)
    }

    fn unary<F: Fn(&str) -> u64>(&mut self, literal_bits: &F) -> (r: Result<Expr, SyntaxError>)
        requires
            old(self).inv(),
            forall|s: &str| literal_bits.requires((s,)),
        ensures
            final(self).inv(),
            final(self).keeps(old(self)),
            r is Ok ==> final(self).state.scope_stack@.len() == old(self).state.scope_stack@.len(),
            r matches Ok(e) ==> scoped(e@, final(self).state.next_slot as nat, final(self).state.globals@.len() as nat)
                && free_of_booleans(e@) && final(self).state.contains_dynamic_lookup == (old(
                self,
            ).state.contains_dynamic_lookup || has_dynamic(e@)),
            r is Ok ==> final(self).pos > old(self).pos && g_unary(old(self).tokens@, old(self).pos as int) == Some(
                final(self).pos as int,
            ),
            old(self).room() && g_unary(old(self).tokens@, old(self).pos as int) is Some ==> r is Ok,
            r matches Err(e) ==> !e.from_lexer,
        decreases self.tokens@.len() - self.pos, 4nat,
    {
        proof {
            unfold_unary(self.tokens@, self.pos as int);
        }
        let start = self.start_of_current();
        if self.peek() == Tok::Minus {
            self.advance();
            let arg = self.unary(literal_bits)?;
            Ok(Expr::new(Kind::Unary { op: UnaryOp::Negate, arg: Box::new(arg) }, self.span_from(start)))
        } else {
            self.power(literal_bits)
        }
    }

    fn term<F: Fn(&str) -> u64>(&mut self, literal_bits: &F) -> (r: Result<Expr, SyntaxError>)
        requires
            old(self).inv(),
            forall|s: &str| literal_bits.requires((s,)),
        ensures
            final(self).inv(),
            final(self).keeps(old(self)),
            r is Ok ==> final(self).state.scope_stack@.len() == old(self).state.scope_stack@.len(),
            r matches Ok(e) ==> scoped(e@, final(self).state.next_slot as nat, final(self).state.globals@.len() as nat)
                && free_of_booleans(e@) && final(self).state.contains_dynamic_lookup == (old(
                self,
            ).state.contains_dynamic_lookup || has_dynamic(e@)),
            r is Ok ==> final(self).pos > old(self).pos && g_term(old(self).tokens@, old(self).pos as int) == Some(
                final(self).pos as int,
            ),
            old(self).room() && g_term(old(self).tokens@, old(self).pos as int) is Some ==> r is Ok,
            r matches Err(e) ==> !e.from_lexer,
        decreases self.tokens@.len() - self.pos, 5nat,
    {
        proof {
            unfold_term(self.tokens@, self.pos as int);
        }
        let start = self.start_of_current();
        let mut lhs = self.unary(literal_bits)?;
        loop
            invariant
                self.pos > old(self).pos,
                g_term(old(self).tokens@, old(self).pos as int) == g_factors(old(self).tokens@, self.pos as int),
                scoped(lhs@, self.state.next_slot as nat, self.state.globals@.len() as nat),
                free_of_booleans(lhs@),
                self.state.contains_dynamic_lookup == (old(self).state.contains_dynamic_lookup || has_dynamic(lhs@)),
                self.inv(),
                self.keeps(&*old(self)),
                self.state.scope_stack@.len() == old(self).state.scope_stack@.len(),
                forall|s: &str| literal_bits.requires((s,)),
            ensures
                self.pos > old(self).pos,
                g_term(old(self).tokens@, old(self).pos as int) == Some(self.pos as int),
                scoped(lhs@, self.state.next_slot as nat, self.state.globals@.len() as nat),
                free_of_booleans(lhs@),
                self.state.contains_dynamic_lookup == (old(self).state.contains_dynamic_lookup || has_dynamic(lhs@)),
                self.inv(),
                self.keeps(&*old(self)),
                self.state.scope_stack@.len() == old(self).state.scope_stack@.len(),
            decreases self.tokens@.len() - self.pos,
        {
            proof {
                unfold_factors(self.tokens@, self.pos as int);
            }
            let op = match self.peek() {
                Tok::Star => BinaryOp::Mul,
                Tok::Slash => BinaryOp::Div,
                Tok::Percent => BinaryOp::Rem,
                _ => break,
            };
            self.advance();
            let ghost s1 = *self;
            let rhs = self.unary(literal_bits)?;
            proof {
                self.lemma_grows(lhs@, &s1);
            }
            lhs = Expr::new(Kind::Binary { op, lhs: Box::new(lhs), rhs: Box::new(rhs) }, self.span_from(start));
        }
        Ok(lhs)
    }

    fn scalar<F: Fn(&str) -> u64>(&mut self, literal_bits: &F) -> (r: Result<Expr, SyntaxError>)
        requires
            old(self).inv(),
            forall|s: &str| literal_bits.requires((s,)),
        ensures
            final(self).inv(),
            final(self).keeps(old(self)),
            r is Ok ==> final(self).state.scope_stack@.len() == old(self).state.scope_stack@.len(),
            r matches Ok(e) ==> scoped(e@, final(self).state.next_slot as nat, final(self).state.globals@.len() as nat)
                && free_of_booleans(e@) && final(self).state.contains_dynamic_lookup == (old(
                self,
            ).state.contains_dynamic_lookup || has_dynamic(e@)),
            r is Ok ==> final(self).pos > old(self).pos && g_scalar(old(self).tokens@, old(self).pos as int) == Some(
                final(self).pos as int,
            ),
            old(self).room() && g_scalar(old(self).tokens@, old(self).pos as int) is Some ==> r is Ok,
            r matches Err(e) ==> !e.from_lexer,
        decreases self.tokens@.len() - self.pos, 6nat,
    {
        proof {
            unfold_scalar(self.tokens@, self.pos as int);
        }
        let start = self.start_of_current();
        let mut lhs = self.term(literal_bits)?;
        loop
            invariant
                self.pos > old(self).pos,
                g_scalar(old(self).tokens@, old(self).pos as int) == g_terms(old(self).tokens@, self.pos as int),
                scoped(lhs@, self.state.next_slot as nat, self.state.globals@.len() as nat),
                free_of_booleans(lhs@),
                self.state.contains_dynamic_lookup == (old(self).state.contains_dynamic_lookup || has_dynamic(lhs@)),
                self.inv(),
                self.keeps(&*old(self)),
                self.state.scope_stack@.len() == old(self).state.scope_stack@.len(),
                forall|s: &str| literal_bits.requires((s,)),
            ensures
                self.pos > old(self).pos,
                g_scalar(old(self).tokens@, old(self).pos as int) == Some(self.pos as int),
                scoped(lhs@, self.state.next_slot as nat, self.state.globals@.len() as nat),
                free_of_booleans(lhs@),
                self.state.contains_dynamic_lookup == (old(self).state.contains_dynamic_lookup || has_dynamic(lhs@)),
                self.inv(),
                self.keeps(&*old(self)),
                self.state.scope_stack@.len() == old(self).state.scope_stack@.len(),
            decreases self.tokens@.len() - self.pos,
        {
            proof {
                unfold_terms(self.tokens@, self.pos as int);
            }
            let op = match self.peek() {
                Tok::Plus => BinaryOp::Add,
                Tok::Minus => BinaryOp::Sub,
                _ => break,
            };
            self.advance();
            let ghost s1 = *self;
            let rhs = self.term(literal_bits)?;
            proof {
                self.lemma_grows(lhs@, &s1);
            }
            lhs = Expr::new(Kind::Binary { op, lhs: Box::new(lhs), rhs: Box::new(rhs) }, self.span_from(start));
        }
        Ok(lhs)
    }

    fn condition<F: Fn(&str) -> u64>(&mut self, literal_bits: &F) -> (r: Result<(Expr, bool), SyntaxError>)
        requires
            old(self).inv(),
            forall|s: &str| literal_bits.requires((s,)),
        ensures
            final(self).inv(),
            final(self).keeps(old(self)),
            r is Ok ==> final(self).state.scope_stack@.len() == old(self).state.scope_stack@.len(),
            r matches Ok((e, boolean)) ==> scoped(e@, final(self).state.next_slot as nat, final(self).state.globals@.len() as nat)
                && is_condition(e@, boolean) && final(self).state.contains_dynamic_lookup == (old(
                self,
            ).state.contains_dynamic_lookup || has_dynamic(e@)),
            r is Ok ==> final(self).pos > old(self).pos && g_condition(old(self).tokens@, old(self).pos as int) == Some(
                final(self).pos as int,
            ),
            old(self).room() && g_condition(old(self).tokens@, old(self).pos as int) is Some ==> r is Ok,
            r matches Err(e) ==> !e.from_lexer,
        decreases self.tokens@.len() - self.pos, 7nat,
    {
        proof {
            unfold_condition(self.tokens@, self.pos as int);
        }
        let start = self.start_of_current();
        if self.peek() == Tok::LeftParen && self.group_is_boolean() {
            self.advance();
            let (inner, boolean) = self.condition(literal_bits)?;
            let ghost s1 = *self;
            self.expect(Tok::RightParen)?;
            proof {
                self.lemma_grows(inner@, &s1);
            }
            return Ok((inner, boolean));
        }
        let lhs = self.scalar(literal_bits)?;
        let ghost s1 = *self;
        let op = match self.peek() {
            Tok::Lt => CompareOp::Lt,
            Tok::Lte => CompareOp::Lte,
            Tok::Gt => CompareOp::Gt,
            Tok::Gte => CompareOp::Gte,
            Tok::EqEq => {
                self.advance();
                let rhs = self.scalar(literal_bits)?;
                self.expect(Tok::PlusMinus)?;
                let ghost s2 = *self;
                let tolerance = self.literal(literal_bits)?;
                let e = Expr::new(
                    Kind::NearEq { lhs: Box::new(lhs), rhs: Box::new(rhs), tolerance },
                    self.span_from(start),
                );
                proof {
                    self.lemma_grows(lhs@, &s1);
                    self.lemma_grows(rhs@, &s2);
                }
                return Ok((e, true));
            },
            _ => return Ok((lhs, false)),
        };
        self.advance();
        let rhs = self.scalar(literal_bits)?;
        let e = Expr::new(Kind::Compare { op, lhs: Box::new(lhs), rhs: Box::new(rhs) }, self.span_from(start));
        proof {
            self.lemma_grows(lhs@, &s1);
        }
        Ok((e, true))
    }

    /// `(assignment ';')* result ';'?` in a scope of its own. A lambda body
    /// takes a scalar result; the root takes a condition. The flag says
    /// whether the result is a comparison.
    fn block<F: Fn(&str) -> u64>(&mut self, root: bool, literal_bits: &F) -> (r: Result<(Block, bool), SyntaxError>)
        requires
            old(self).inv(),
            forall|s: &str| literal_bits.requires((s,)),
        ensures
            final(self).inv(),
            final(self).keeps(old(self)),
            r is Ok ==> final(self).state.scope_stack@.len() == old(self).state.scope_stack@.len(),
            r matches Ok((b, boolean)) ==> scoped_block(b@, final(self).state.next_slot as nat, final(self).state.globals@.len() as nat)
                && (forall|i: int| 0 <= i < b@.assignments.len() ==> free_of_booleans(#[trigger] b@.assignments[i].value))
                && is_condition(b@.result, boolean) && (!root ==> !boolean)
                && final(self).state.contains_dynamic_lookup == (old(self).state.contains_dynamic_lookup
                || block_has_dynamic(b@)),
            r is Ok ==> final(self).pos > old(self).pos && g_block(old(self).tokens@, old(self).pos as int, root) == Some(
                final(self).pos as int,
            ),
            old(self).room() && g_block(old(self).tokens@, old(self).pos as int, root) is Some ==> r is Ok,
            r matches Err(e) ==> !e.from_lexer,
        decreases self.tokens@.len() - self.pos, 8nat,
    {
        proof {
            unfold_block(self.tokens@, self.pos as int, root);
        }
        let ghost s0 = *self;
        self.state.push_scope();
        let mut assignments: Vec<Assignment> = Vec::new();
        // `var` then a name is a binding; `var[` is a subscript in the result.
        while self.peek() == Tok::Var && self.peek_second() == Tok::Name
            invariant
                self.pos >= old(self).pos,
                g_assignments(old(self).tokens@, old(self).pos as int) == g_assignments(old(self).tokens@, self.pos as int),
                self.inv(),
                self.keeps(&*old(self)),
                self.state.scope_stack@.len() == old(self).state.scope_stack@.len() + 1,
                forall|s: &str| literal_bits.requires((s,)),
                forall|i: int|
                    0 <= i < assignments@.len() ==> {
                        let a = #[trigger] assignments@[i];
                        &&& a.slot.0 < self.state.next_slot
                        &&& scoped(a.value@, a.slot.0 as nat, self.state.globals@.len() as nat)
                        &&& free_of_booleans(a.value@)
                    },
                self.state.contains_dynamic_lookup == (old(self).state.contains_dynamic_lookup || exists|i: int|
                    0 <= i < assignments@.len() && has_dynamic(#[trigger] assignments@[i].value@)),
            decreases self.tokens@.len() - self.pos,
        {
            proof {
                unfold_assignments(self.tokens@, self.pos as int);
                unfold_block(old(self).tokens@, old(self).pos as int, root);
            }
            let start = self.start_of_current();
            self.advance();
            let name_token = self.expect(Tok::Name)?;
            self.expect(Tok::Assign)?;
            let ghost before_value = *self;
            let value = self.scalar(literal_bits)?;
            if self.state.next_slot == u32::MAX {
                return Err(self.error());
            }
            let ghost after_value = *self;
            let name = string_of_range(&self.chars, name_token.start, name_token.end);
            // Bound only now that its own value has been read.
            let slot = self.state.declare(name.as_str());
            let span = self.span_from(start);
            let ghost prior = assignments@;
            assignments.push(Assignment { slot, value, span });
            let ghost after_push = *self;
            self.expect(Tok::Semicolon)?;
            proof {
                assert forall|i: int|
                    0 <= i < assignments@.len() implies {
                        let a = #[trigger] assignments@[i];
                        &&& a.slot.0 < self.state.next_slot
                        &&& scoped(a.value@, a.slot.0 as nat, self.state.globals@.len() as nat)
                        &&& free_of_booleans(a.value@)
                    } by {
                    let a = assignments@[i];
                    if i < prior.len() {
                        assert(a == prior[i]);
                        lemma_scoped_grows(
                            a.value@,
                            a.slot.0 as nat,
                            before_value.state.globals@.len() as nat,
                            a.slot.0 as nat,
                            self.state.globals@.len() as nat,
                        );
                    } else {
                        lemma_scoped_grows(
                            a.value@,
                            after_value.state.next_slot as nat,
                            after_value.state.globals@.len() as nat,
                            a.slot.0 as nat,
                            self.state.globals@.len() as nat,
                        );
                    }
                }
                if self.state.contains_dynamic_lookup {
                    if !old(self).state.contains_dynamic_lookup && !has_dynamic(value@) {
                        let i = choose|i: int| 0 <= i < prior.len() && has_dynamic(#[trigger] prior[i].value@);
                        assert(assignments@[i] == prior[i]);
                    }
                } else {
                    assert forall|i: int| 0 <= i < assignments@.len() implies !has_dynamic(#[trigger] assignments@[i].value@) by {
                        if i < prior.len() {
                            assert(assignments@[i] == prior[i]);
                        }
                    }
                }
                if has_dynamic(value@) {
                    assert(has_dynamic(assignments@[prior.len() as int].value@));
                }
            }
        }
        proof {
            unfold_assignments(self.tokens@, self.pos as int);
        }
        if self.peek() == Tok::Return {
            self.advance();
        }
        let ghost before_result = *self;
        let (result, boolean) = if root {
            self.condition(literal_bits)?
        } else {
            (self.scalar(literal_bits)?, false)
        };
        if self.peek() == Tok::Semicolon {
            self.advance();
        }
        self.state.pop_scope();
        let b = Block { assignments, result };
        proof {
            let bm = model_block(b);
            assert forall|i: int| 0 <= i < bm.assignments.len() implies {
                let a = #[trigger] bm.assignments[i];
                &&& a.slot.0 < self.state.next_slot as nat
                &&& scoped(a.value, a.slot.0 as nat, self.state.globals@.len() as nat)
            } by {
                let a = b.assignments@[i];
                lemma_scoped_grows(
                    a.value@,
                    a.slot.0 as nat,
                    before_result.state.globals@.len() as nat,
                    a.slot.0 as nat,
                    self.state.globals@.len() as nat,
                );
            }
            assert forall|i: int| 0 <= i < bm.assignments.len() implies free_of_booleans(#[trigger] bm.assignments[i].value) by {
                assert(bm.assignments[i].value == b.assignments@[i].value@);
            }
            if block_has_dynamic(bm) {
                if !has_dynamic(bm.result) {
                    let i = choose|i: int| 0 <= i < bm.assignments.len() && has_dynamic(#[trigger] bm.assignments[i].value);
                    assert(bm.assignments[i].value == b.assignments@[i].value@);
                }
            }
            if before_result.state.contains_dynamic_lookup && !old(self).state.contains_dynamic_lookup {
                let i = choose|i: int| 0 <= i < b.assignments@.len() && has_dynamic(#[trigger] b.assignments@[i].value@);
                assert(bm.assignments[i].value == b.assignments@[i].value@);
            }
        }
        Ok((b, boolean))
    }
}

/// Parses `source` and translates it to a tree, or reports where it stops
/// being babel. `literal_bits` gives the bits of the binary64 value nearest
/// to a number's text.
pub fn translate<F: Fn(&str) -> u64>(source: &str, literal_bits: &F) -> (r: Result<Lowered, SyntaxError>)
    requires
        forall|s: &str| literal_bits.requires((s,)),
    ensures
        r matches Ok(l) ==> {
            &&& scoped_block(l.program@.body, l.program.frame_size as nat, l.symbols@.len() as nat)
            &&& distinct_names(l.symbols@)
            &&& l.contains_dynamic_lookup == block_has_dynamic(l.program@.body)
            &&& is_condition(l.program@.body.result, l.is_constraint)
            &&& forall|i: int|
                0 <= i < l.program@.body.assignments.len() ==> free_of_booleans(
                    #[trigger] l.program@.body.assignments[i].value,
                )
        },
        match lexed(source@) {
            Err(at) => r matches Err(e) && e.from_lexer && e.start == at && e.end == at + 1,
            Ok(t) => {
                &&& r is Ok ==> accepts(t)
                &&& accepts(t) && t.len() < u32::MAX ==> r is Ok
                &&& r matches Err(e) ==> !e.from_lexer
            },
        },
{
    let chars = crate::text::chars_of(source);
    let tokens = match lex(&chars) {
        Ok(tokens) => tokens,
        Err(at) => {
            let _n = chars.len();
            let mut message = String::from_str("token recognition error at: '");
            push_char(&mut message, chars[at]);
            message.append("'");
            return Err(SyntaxError { message, start: at, end: at + 1, from_lexer: true });
        },
    };
    let mut parser = Parser { chars, tokens, pos: 0, last_end: 0, state: TranslationState::new() };
    let (body, is_constraint) = parser.block(true, literal_bits)?;
    if parser.peek() != Tok::End {
        return Err(parser.error());
    }
    let TranslationState { globals, scope_stack: _, next_slot, contains_dynamic_lookup } = parser.state;
    Ok(
        Lowered {
            program: Program { body, frame_size: next_slot },
            symbols: globals,
            contains_dynamic_lookup,
            is_constraint,
        },
    )
}

/// The words that are tokens of their own and so cannot name a variable.
pub open spec fn is_keyword(s: Seq<char>) -> bool {
    ||| s == "var"@
    ||| s == "return"@
    ||| s == "sum"@
    ||| s == "prod"@
    ||| s == "pi"@
    ||| s == "e"@
    ||| s == "log"@
    ||| s == "max"@
    ||| s == "min"@
    ||| exists|op: UnaryOp| op != UnaryOp::Negate && unary_keyword(op) == s
}

/// Text that is one variable name and nothing else.
pub open spec fn is_variable_text(s: Seq<char>) -> bool {
    &&& s.len() > 0
    &&& is_name_start(s[0])
    &&& forall|i: int| 1 <= i < s.len() ==> is_name_part(#[trigger] s[i])
    &&& !is_keyword(s)
}

/// Whether `name` is a variable name and nothing else.
pub fn parses_as_variable(name: &str) -> (is_variable: bool)
    ensures
        is_variable == is_variable_text(name@),
{
    let chars = crate::text::chars_of(name);
    if chars.len() == 0 {
        return false;
    }
    let first = chars[0];
    if !(('a' <= first && first <= 'z') || ('A' <= first && first <= 'Z') || first == '_' || (first as u32) >= 0x80) {
        return false;
    }
    let mut i: usize = 1;
    while i < chars.len()
        invariant
            chars@ == name@,
            1 <= i <= chars@.len(),
            forall|k: int| 1 <= k < i ==> is_name_part(#[trigger] chars@[k]),
        decreases chars@.len() - i,
    {
        let c = chars[i];
        if !(('a' <= c && c <= 'z') || ('A' <= c && c <= 'Z') || c == '_' || (c as u32) >= 0x80 || ('0' <= c && c <= '9')) {
            return false;
        }
        i += 1;
    }
    if same_text(name, "var") || same_text(name, "return") || same_text(name, "sum") || same_text(name, "prod") || same_text(name, "pi")
        || same_text(name, "e") || same_text(name, "log") || same_text(name, "max") || same_text(name, "min") {
        return false;
    }
    match UnaryOp::from_keyword(name) {
        Some(_) => false,
        None => true,
    }
}

} // verus!
