//! The grammar as a recognizer over tokens: where each rule that starts at
//! a token ends, if the tokens there are one. See the parser's module
//! documentation for the rules.
use vstd::prelude::*;

use crate::frontend::lex::{Tok, Token};

verus! {

/// Scanning `tokens` from `i` with `depth` brackets open: a comparison
/// operator comes before the bracket that closes the outermost one, and
/// before the end.
pub open spec fn compares_before_close(tokens: Seq<Token>, i: int, depth: nat) -> bool
    decreases tokens.len() - i,
{
    if i < 0 || i >= tokens.len() {
        false
    } else {
        match tokens[i].tok {
            Tok::LeftParen => compares_before_close(tokens, i + 1, depth + 1),
            Tok::RightParen => if depth <= 1 {
                false
            } else {
                compares_before_close(tokens, i + 1, (depth - 1) as nat)
            },
            Tok::Lt | Tok::Lte | Tok::Gt | Tok::Gte | Tok::EqEq => true,
            Tok::End => false,
            _ => compares_before_close(tokens, i + 1, depth),
        }
    }
}

/// Token `p` of `t` is a `tok`.
pub open spec fn at(t: Seq<Token>, p: int, tok: Tok) -> bool {
    0 <= p < t.len() && t[p].tok == tok
}

/// Where `primary` starting at token `p` of `t` ends, if the tokens there
/// are one.
pub closed spec fn g_primary(t: Seq<Token>, p: int) -> Option<int>
    decreases t.len() - p, 1int,
{
    if !(0 <= p < t.len()) {
        None
    } else {
        match t[p].tok {
            Tok::Number | Tok::Pi | Tok::Euler | Tok::Name => Some(p + 1),
            Tok::Var => if at(t, p + 1, Tok::LeftBracket) {
                match g_scalar(t, p + 2) {
                    Some(a) => if p < a < t.len() && at(t, a, Tok::RightBracket) {
                        Some(a + 1)
                    } else {
                        None
                    },
                    None => None,
                }
            } else {
                None
            },
            Tok::Sum | Tok::Prod => if at(t, p + 1, Tok::LeftParen) {
                match g_scalar(t, p + 2) {
                    Some(a) => if p < a < t.len() && at(t, a, Tok::Comma) {
                        match g_scalar(t, a + 1) {
                            Some(b) => if p < b < t.len() && at(t, b, Tok::Comma) && at(t, b + 1, Tok::Name) && at(
                                t,
                                b + 2,
                                Tok::Arrow,
                            ) {
                                match g_block(t, b + 3, false) {
                                    Some(c) => if p < c < t.len() && at(t, c, Tok::RightParen) {
                                        Some(c + 1)
                                    } else {
                                        None
                                    },
                                    None => None,
                                }
                            } else {
                                None
                            },
                            None => None,
                        }
                    } else {
                        None
                    },
                    None => None,
                }
            } else {
                None
            },
            Tok::Unary(_) => if at(t, p + 1, Tok::LeftParen) {
                match g_scalar(t, p + 2) {
                    Some(a) => if p < a < t.len() && at(t, a, Tok::RightParen) {
                        Some(a + 1)
                    } else {
                        None
                    },
                    None => None,
                }
            } else {
                None
            },
            Tok::Log => if at(t, p + 1, Tok::LeftParen) {
                match g_scalar(t, p + 2) {
                    Some(a) => if p < a < t.len() && at(t, a, Tok::Comma) {
                        match g_scalar(t, a + 1) {
                            Some(b) => if p < b < t.len() && at(t, b, Tok::RightParen) {
                                Some(b + 1)
                            } else {
                                None
                            },
                            None => None,
                        }
                    } else if p < a < t.len() && at(t, a, Tok::RightParen) {
                        Some(a + 1)
                    } else {
                        None
                    },
                    None => None,
                }
            } else {
                None
            },
            Tok::Max | Tok::Min => if at(t, p + 1, Tok::LeftParen) {
                match g_scalar(t, p + 2) {
                    Some(a) => if p < a < t.len() && at(t, a, Tok::Comma) {
                        match g_scalar(t, a + 1) {
                            Some(b) => if p < b < t.len() && at(t, b, Tok::RightParen) {
                                Some(b + 1)
                            } else {
                                None
                            },
                            None => None,
                        }
                    } else {
                        None
                    },
                    None => None,
                }
            } else {
                None
            },
            Tok::LeftParen => match g_scalar(t, p + 1) {
                Some(a) => if p < a < t.len() && at(t, a, Tok::RightParen) {
                    Some(a + 1)
                } else {
                    None
                },
                None => None,
            },
            _ => None,
        }
    }
}

/// Where `exponent` starting at `p` ends.
pub closed spec fn g_exponent(t: Seq<Token>, p: int) -> Option<int>
    decreases t.len() - p, 2int,
{
    if !(0 <= p < t.len()) {
        None
    } else if at(t, p, Tok::Minus) {
        g_power(t, p + 1)
    } else {
        g_primary(t, p)
    }
}

/// Where `power` starting at `p` ends.
pub closed spec fn g_power(t: Seq<Token>, p: int) -> Option<int>
    decreases t.len() - p, 3int,
{
    if !(0 <= p < t.len()) {
        None
    } else {
        match g_primary(t, p) {
            Some(a) => if p < a < t.len() {
                g_powers(t, a)
            } else {
                None
            },
            None => None,
        }
    }
}

/// Where the `('^' exponent)*` of a power starting at `p` ends.
pub closed spec fn g_powers(t: Seq<Token>, p: int) -> Option<int>
    decreases t.len() - p, 0int,
{
    if !(0 <= p < t.len()) {
        None
    } else if at(t, p, Tok::Caret) {
        match g_exponent(t, p + 1) {
            Some(a) => if p < a < t.len() {
                g_powers(t, a)
            } else {
                None
            },
            None => None,
        }
    } else {
        Some(p)
    }
}

/// Where `unary` starting at `p` ends.
pub closed spec fn g_unary(t: Seq<Token>, p: int) -> Option<int>
    decreases t.len() - p, 4int,
{
    if !(0 <= p < t.len()) {
        None
    } else if at(t, p, Tok::Minus) {
        g_unary(t, p + 1)
    } else {
        g_power(t, p)
    }
}

/// Where `term` starting at `p` ends.
pub closed spec fn g_term(t: Seq<Token>, p: int) -> Option<int>
    decreases t.len() - p, 5int,
{
    if !(0 <= p < t.len()) {
        None
    } else {
        match g_unary(t, p) {
            Some(a) => if p < a < t.len() {
                g_factors(t, a)
            } else {
                None
            },
            None => None,
        }
    }
}

/// Where the `(('*' | '/' | '%') unary)*` of a term starting at `p` ends.
pub closed spec fn g_factors(t: Seq<Token>, p: int) -> Option<int>
    decreases t.len() - p, 0int,
{
    if !(0 <= p < t.len()) {
        None
    } else if at(t, p, Tok::Star) || at(t, p, Tok::Slash) || at(t, p, Tok::Percent) {
        match g_unary(t, p + 1) {
            Some(a) => if p < a < t.len() {
                g_factors(t, a)
            } else {
                None
            },
            None => None,
        }
    } else {
        Some(p)
    }
}

/// Where `scalar` starting at `p` ends.
pub closed spec fn g_scalar(t: Seq<Token>, p: int) -> Option<int>
    decreases t.len() - p, 6int,
{
    if !(0 <= p < t.len()) {
        None
    } else {
        match g_term(t, p) {
            Some(a) => if p < a < t.len() {
                g_terms(t, a)
            } else {
                None
            },
            None => None,
        }
    }
}

/// Where the `(('+' | '-') term)*` of a scalar starting at `p` ends.
pub closed spec fn g_terms(t: Seq<Token>, p: int) -> Option<int>
    decreases t.len() - p, 0int,
{
    if !(0 <= p < t.len()) {
        None
    } else if at(t, p, Tok::Plus) || at(t, p, Tok::Minus) {
        match g_term(t, p + 1) {
            Some(a) => if p < a < t.len() {
                g_terms(t, a)
            } else {
                None
            },
            None => None,
        }
    } else {
        Some(p)
    }
}

/// Where `literal` starting at `p` ends.
pub open spec fn g_literal(t: Seq<Token>, p: int) -> Option<int> {
    let q = if at(t, p, Tok::Minus) {
        p + 1
    } else {
        p
    };
    if at(t, q, Tok::Number) || at(t, q, Tok::Pi) || at(t, q, Tok::Euler) {
        Some(q + 1)
    } else {
        None
    }
}

/// A comparison operator.
pub open spec fn is_comparison(tok: Tok) -> bool {
    tok == Tok::Lt || tok == Tok::Lte || tok == Tok::Gt || tok == Tok::Gte
}

/// Where `condition` starting at `p` ends: a bracket holds a condition when
/// a comparison comes before it closes, and a scalar otherwise.
pub closed spec fn g_condition(t: Seq<Token>, p: int) -> Option<int>
    decreases t.len() - p, 7int,
{
    if !(0 <= p < t.len()) {
        None
    } else if at(t, p, Tok::LeftParen) && compares_before_close(t, p, 0) {
        match g_condition(t, p + 1) {
            Some(a) => if p < a < t.len() && at(t, a, Tok::RightParen) {
                Some(a + 1)
            } else {
                None
            },
            None => None,
        }
    } else {
        match g_scalar(t, p) {
            Some(a) => if p < a < t.len() {
                if is_comparison(t[a].tok) {
                    match g_scalar(t, a + 1) {
                        Some(b) => if a < b < t.len() {
                            Some(b)
                        } else {
                            None
                        },
                        None => None,
                    }
                } else if t[a].tok == Tok::EqEq {
                    match g_scalar(t, a + 1) {
                        Some(b) => if a < b < t.len() && at(t, b, Tok::PlusMinus) {
                            g_literal(t, b + 1)
                        } else {
                            None
                        },
                        None => None,
                    }
                } else {
                    Some(a)
                }
            } else {
                None
            },
            None => None,
        }
    }
}

/// Where the `(assignment ';')*` of a block starting at `p` ends: `var`
/// followed by a name starts an assignment.
pub closed spec fn g_assignments(t: Seq<Token>, p: int) -> Option<int>
    decreases t.len() - p, 0int,
{
    if !(0 <= p < t.len()) {
        None
    } else if at(t, p, Tok::Var) && at(t, p + 1, Tok::Name) {
        if at(t, p + 2, Tok::Assign) {
            match g_scalar(t, p + 3) {
                Some(a) => if p < a < t.len() && at(t, a, Tok::Semicolon) {
                    g_assignments(t, a + 1)
                } else {
                    None
                },
                None => None,
            }
        } else {
            None
        }
    } else {
        Some(p)
    }
}

/// Where `block` starting at `p` ends; its result is a condition at the
/// root and a scalar in a lambda body.
pub closed spec fn g_block(t: Seq<Token>, p: int, root: bool) -> Option<int>
    decreases t.len() - p, 8int,
{
    if !(0 <= p < t.len()) {
        None
    } else {
        match g_assignments(t, p) {
            Some(a) => if p <= a < t.len() {
                let b = if at(t, a, Tok::Return) {
                    a + 1
                } else {
                    a
                };
                let r = if root {
                    g_condition(t, b)
                } else {
                    g_scalar(t, b)
                };
                match r {
                    Some(c) => if c < t.len() && at(t, c, Tok::Semicolon) {
                        Some(c + 1)
                    } else {
                        Some(c)
                    },
                    None => None,
                }
            } else {
                None
            },
            None => None,
        }
    }
}

/// Tokens that are one whole expression: a root block and then the end.
pub open spec fn accepts(t: Seq<Token>) -> bool {
    g_block(t, 0, true) matches Some(a) && at(t, a, Tok::End)
}


/// [`g_primary`], one step.
pub proof fn unfold_primary(t: Seq<Token>, p: int)
    ensures
        g_primary(t, p) == ({
            if !(0 <= p < t.len()) {
                None
            } else {
                match t[p].tok {
                    Tok::Number | Tok::Pi | Tok::Euler | Tok::Name => Some(p + 1),
                    Tok::Var => if at(t, p + 1, Tok::LeftBracket) {
                        match g_scalar(t, p + 2) {
                            Some(a) => if p < a < t.len() && at(t, a, Tok::RightBracket) {
                                Some(a + 1)
                            } else {
                                None
                            },
                            None => None,
                        }
                    } else {
                        None
                    },
                    Tok::Sum | Tok::Prod => if at(t, p + 1, Tok::LeftParen) {
                        match g_scalar(t, p + 2) {
                            Some(a) => if p < a < t.len() && at(t, a, Tok::Comma) {
                                match g_scalar(t, a + 1) {
                                    Some(b) => if p < b < t.len() && at(t, b, Tok::Comma) && at(t, b + 1, Tok::Name) && at(
                                        t,
                                        b + 2,
                                        Tok::Arrow,
                                    ) {
                                        match g_block(t, b + 3, false) {
                                            Some(c) => if p < c < t.len() && at(t, c, Tok::RightParen) {
                                                Some(c + 1)
                                            } else {
                                                None
                                            },
                                            None => None,
                                        }
                                    } else {
                                        None
                                    },
                                    None => None,
                                }
                            } else {
                                None
                            },
                            None => None,
                        }
                    } else {
                        None
                    },
                    Tok::Unary(_) => if at(t, p + 1, Tok::LeftParen) {
                        match g_scalar(t, p + 2) {
                            Some(a) => if p < a < t.len() && at(t, a, Tok::RightParen) {
                                Some(a + 1)
                            } else {
                                None
                            },
                            None => None,
                        }
                    } else {
                        None
                    },
                    Tok::Log => if at(t, p + 1, Tok::LeftParen) {
                        match g_scalar(t, p + 2) {
                            Some(a) => if p < a < t.len() && at(t, a, Tok::Comma) {
                                match g_scalar(t, a + 1) {
                                    Some(b) => if p < b < t.len() && at(t, b, Tok::RightParen) {
                                        Some(b + 1)
                                    } else {
                                        None
                                    },
                                    None => None,
                                }
                            } else if p < a < t.len() && at(t, a, Tok::RightParen) {
                                Some(a + 1)
                            } else {
                                None
                            },
                            None => None,
                        }
                    } else {
                        None
                    },
                    Tok::Max | Tok::Min => if at(t, p + 1, Tok::LeftParen) {
                        match g_scalar(t, p + 2) {
                            Some(a) => if p < a < t.len() && at(t, a, Tok::Comma) {
                                match g_scalar(t, a + 1) {
                                    Some(b) => if p < b < t.len() && at(t, b, Tok::RightParen) {
                                        Some(b + 1)
                                    } else {
                                        None
                                    },
                                    None => None,
                                }
                            } else {
                                None
                            },
                            None => None,
                        }
                    } else {
                        None
                    },
                    Tok::LeftParen => match g_scalar(t, p + 1) {
                        Some(a) => if p < a < t.len() && at(t, a, Tok::RightParen) {
                            Some(a + 1)
                        } else {
                            None
                        },
                        None => None,
                    },
                    _ => None,
                }
            }
        }),
{
}

/// [`g_exponent`], one step.
pub proof fn unfold_exponent(t: Seq<Token>, p: int)
    ensures
        g_exponent(t, p) == ({
            if !(0 <= p < t.len()) {
                None
            } else if at(t, p, Tok::Minus) {
                g_power(t, p + 1)
            } else {
                g_primary(t, p)
            }
        }),
{
}

/// [`g_power`], one step.
pub proof fn unfold_power(t: Seq<Token>, p: int)
    ensures
        g_power(t, p) == ({
            if !(0 <= p < t.len()) {
                None
            } else {
                match g_primary(t, p) {
                    Some(a) => if p < a < t.len() {
                        g_powers(t, a)
                    } else {
                        None
                    },
                    None => None,
                }
            }
        }),
{
}

/// [`g_powers`], one step.
pub proof fn unfold_powers(t: Seq<Token>, p: int)
    ensures
        g_powers(t, p) == ({
            if !(0 <= p < t.len()) {
                None
            } else if at(t, p, Tok::Caret) {
                match g_exponent(t, p + 1) {
                    Some(a) => if p < a < t.len() {
                        g_powers(t, a)
                    } else {
                        None
                    },
                    None => None,
                }
            } else {
                Some(p)
            }
        }),
{
}

/// [`g_unary`], one step.
pub proof fn unfold_unary(t: Seq<Token>, p: int)
    ensures
        g_unary(t, p) == ({
            if !(0 <= p < t.len()) {
                None
            } else if at(t, p, Tok::Minus) {
                g_unary(t, p + 1)
            } else {
                g_power(t, p)
            }
        }),
{
}

/// [`g_term`], one step.
pub proof fn unfold_term(t: Seq<Token>, p: int)
    ensures
        g_term(t, p) == ({
            if !(0 <= p < t.len()) {
                None
            } else {
                match g_unary(t, p) {
                    Some(a) => if p < a < t.len() {
                        g_factors(t, a)
                    } else {
                        None
                    },
                    None => None,
                }
            }
        }),
{
}

/// [`g_factors`], one step.
pub proof fn unfold_factors(t: Seq<Token>, p: int)
    ensures
        g_factors(t, p) == ({
            if !(0 <= p < t.len()) {
                None
            } else if at(t, p, Tok::Star) || at(t, p, Tok::Slash) || at(t, p, Tok::Percent) {
                match g_unary(t, p + 1) {
                    Some(a) => if p < a < t.len() {
                        g_factors(t, a)
                    } else {
                        None
                    },
                    None => None,
                }
            } else {
                Some(p)
            }
        }),
{
}

/// [`g_scalar`], one step.
pub proof fn unfold_scalar(t: Seq<Token>, p: int)
    ensures
        g_scalar(t, p) == ({
            if !(0 <= p < t.len()) {
                None
            } else {
                match g_term(t, p) {
                    Some(a) => if p < a < t.len() {
                        g_terms(t, a)
                    } else {
                        None
                    },
                    None => None,
                }
            }
        }),
{
}

/// [`g_terms`], one step.
pub proof fn unfold_terms(t: Seq<Token>, p: int)
    ensures
        g_terms(t, p) == ({
            if !(0 <= p < t.len()) {
                None
            } else if at(t, p, Tok::Plus) || at(t, p, Tok::Minus) {
                match g_term(t, p + 1) {
                    Some(a) => if p < a < t.len() {
                        g_terms(t, a)
                    } else {
                        None
                    },
                    None => None,
                }
            } else {
                Some(p)
            }
        }),
{
}

/// [`g_condition`], one step.
pub proof fn unfold_condition(t: Seq<Token>, p: int)
    ensures
        g_condition(t, p) == ({
            if !(0 <= p < t.len()) {
                None
            } else if at(t, p, Tok::LeftParen) && compares_before_close(t, p, 0) {
                match g_condition(t, p + 1) {
                    Some(a) => if p < a < t.len() && at(t, a, Tok::RightParen) {
                        Some(a + 1)
                    } else {
                        None
                    },
                    None => None,
                }
            } else {
                match g_scalar(t, p) {
                    Some(a) => if p < a < t.len() {
                        if is_comparison(t[a].tok) {
                            match g_scalar(t, a + 1) {
                                Some(b) => if a < b < t.len() {
                                    Some(b)
                                } else {
                                    None
                                },
                                None => None,
                            }
                        } else if t[a].tok == Tok::EqEq {
                            match g_scalar(t, a + 1) {
                                Some(b) => if a < b < t.len() && at(t, b, Tok::PlusMinus) {
                                    g_literal(t, b + 1)
                                } else {
                                    None
                                },
                                None => None,
                            }
                        } else {
                            Some(a)
                        }
                    } else {
                        None
                    },
                    None => None,
                }
            }
        }),
{
}

/// [`g_assignments`], one step.
pub proof fn unfold_assignments(t: Seq<Token>, p: int)
    ensures
        g_assignments(t, p) == ({
            if !(0 <= p < t.len()) {
                None
            } else if at(t, p, Tok::Var) && at(t, p + 1, Tok::Name) {
                if at(t, p + 2, Tok::Assign) {
                    match g_scalar(t, p + 3) {
                        Some(a) => if p < a < t.len() && at(t, a, Tok::Semicolon) {
                            g_assignments(t, a + 1)
                        } else {
                            None
                        },
                        None => None,
                    }
                } else {
                    None
                }
            } else {
                Some(p)
            }
        }),
{
}

/// [`g_block`], one step.
pub proof fn unfold_block(t: Seq<Token>, p: int, root: bool)
    ensures
        g_block(t, p, root) == ({
            if !(0 <= p < t.len()) {
                None
            } else {
                match g_assignments(t, p) {
                    Some(a) => if p <= a < t.len() {
                        let b = if at(t, a, Tok::Return) {
                            a + 1
                        } else {
                            a
                        };
                        let r = if root {
                            g_condition(t, b)
                        } else {
                            g_scalar(t, b)
                        };
                        match r {
                            Some(c) => if c < t.len() && at(t, c, Tok::Semicolon) {
                                Some(c + 1)
                            } else {
                                Some(c)
                            },
                            None => None,
                        }
                    } else {
                        None
                    },
                    None => None,
                }
            }
        }),
{
}

} // verus!
