//! Comparisons against strictly monotone functions, inverted: `2 < ln(x1)`
//! becomes `x1 > e^2`, so that what reaches a solver is linear in the
//! argument and wants no logarithm from it.
//!
//! The bound is the host's to compute (the library does no floating point),
//! through the function handed in; which comparisons invert, in which
//! direction, when a constant lies outside what the function can produce,
//! the one-ulp widening and the domain guard are decided here, on bits.
use vstd::prelude::*;

use crate::ast::{
    clone_expr, model_block, model_expr, scoped, scoped_block, Assignment, AssignmentModel, BinaryOp, Block,
    BlockModel, CompareOp, Expr, ExprModel, Kind, KindModel, Program, ProgramModel, UnaryOp,
};
use crate::binary64::{exponent_field, fraction_field, is_negative, SIGN_BIT};
use crate::diagnostics::Span;
use crate::frontend::fold::finite;
use crate::frontend::rewrite::{
    binary, binary_model, literal, literal_model, mirror, mirrored, residual, residual_model,
};

verus! {

/// The bits of negative infinity.
pub const NEG_INFINITY: u64 = 0xFFF0_0000_0000_0000;
/// The bits of positive infinity.
pub const INFINITY: u64 = 0x7FF0_0000_0000_0000;
/// The bits of `1.0`.
pub const ONE: u64 = 0x3FF0_0000_0000_0000;
/// The bits of `-1.0`.
pub const MINUS_ONE: u64 = 0xBFF0_0000_0000_0000;
/// The bits of the binary64 value nearest to `pi / 2`.
pub const HALF_PI: u64 = 0x3FF9_21FB_5444_2D18;
/// The bits of its negation.
pub const MINUS_HALF_PI: u64 = 0xBFF9_21FB_5444_2D18;

// ------------------------------------------------------------ order on bits

/// The bits of a NaN.
pub open spec fn nan(bits: u64) -> bool {
    exponent_field(bits) == 2047 && fraction_field(bits) != 0
}

/// Where a value that is not a NaN stands in the order of the reals: its
/// magnitude's bits, negated under the sign bit, so that both zeros stand
/// at zero.
pub open spec fn order_key(bits: u64) -> int {
    if is_negative(bits) {
        -((bits - SIGN_BIT) as int)
    } else {
        bits as int
    }
}

/// `a < b` as binary64 values: false when either is a NaN.
pub open spec fn less(a: u64, b: u64) -> bool {
    !nan(a) && !nan(b) && order_key(a) < order_key(b)
}

/// `a <= b` as binary64 values: false when either is a NaN.
pub open spec fn at_most(a: u64, b: u64) -> bool {
    !nan(a) && !nan(b) && order_key(a) <= order_key(b)
}

/// The host's `max` of `x` and `y` behaves as a maximum there: it is one of
/// them, and no less than either.
pub open spec fn max_bounds<B: Fn(BinaryOp, u64, u64) -> u64>(binary: B, x: u64, y: u64) -> bool {
    let m = crate::frontend::fold::binary_value(binary, BinaryOp::Max, x, y);
    &&& m == x || m == y
    &&& at_most(x, m)
    &&& at_most(y, m)
}

/// The least value above `bits` (`f64::next_up`): a NaN and positive
/// infinity stay, either zero becomes the least positive value, a positive
/// value steps up its bits and a negative one down.
pub open spec fn next_up(bits: u64) -> u64 {
    if nan(bits) || bits == INFINITY {
        bits
    } else if bits == 0 || bits == SIGN_BIT {
        1
    } else if !is_negative(bits) {
        (bits + 1) as u64
    } else {
        (bits - 1) as u64
    }
}

/// The greatest value below `bits` (`f64::next_down`), symmetrically.
pub open spec fn next_down(bits: u64) -> u64 {
    if nan(bits) || bits == NEG_INFINITY {
        bits
    } else if bits == 0 || bits == SIGN_BIT {
        (SIGN_BIT + 1) as u64
    } else if !is_negative(bits) {
        (bits - 1) as u64
    } else {
        (bits + 1) as u64
    }
}

fn is_nan(bits: u64) -> (r: bool)
    ensures
        r == nan(bits),
{
    (bits / 0x10_0000_0000_0000) % 2048 == 2047 && bits % 0x10_0000_0000_0000 != 0
}

fn key_less(a: u64, b: u64) -> (r: bool)
    ensures
        r == (order_key(a) < order_key(b)),
{
    let an = a >= SIGN_BIT;
    let bn = b >= SIGN_BIT;
    if an && bn {
        a - SIGN_BIT > b - SIGN_BIT
    } else if an {
        !(a == SIGN_BIT && b == 0)
    } else if bn {
        false
    } else {
        a < b
    }
}

/// [`less`].
fn is_less(a: u64, b: u64) -> (r: bool)
    ensures
        r == less(a, b),
{
    !is_nan(a) && !is_nan(b) && key_less(a, b)
}

/// [`at_most`].
pub(crate) fn is_at_most(a: u64, b: u64) -> (r: bool)
    ensures
        r == at_most(a, b),
{
    !is_nan(a) && !is_nan(b) && !key_less(b, a)
}

/// [`next_up`].
pub fn step_up(bits: u64) -> (r: u64)
    ensures
        r == next_up(bits),
{
    if is_nan(bits) || bits == INFINITY {
        bits
    } else if bits == 0 || bits == SIGN_BIT {
        1
    } else if bits < SIGN_BIT {
        bits + 1
    } else {
        bits - 1
    }
}

/// [`next_down`].
pub fn step_down(bits: u64) -> (r: u64)
    ensures
        r == next_down(bits),
{
    if is_nan(bits) || bits == NEG_INFINITY {
        bits
    } else if bits == 0 || bits == SIGN_BIT {
        SIGN_BIT + 1
    } else if bits < SIGN_BIT {
        bits - 1
    } else {
        proof {
            assert(bits != 0xFFFF_FFFF_FFFF_FFFFu64) by {
                assert(nan(0xFFFF_FFFF_FFFF_FFFFu64));
            }
        }
        bits + 1
    }
}

// ------------------------------------------------------------ the table

/// An inverse the host computes at a constant `c`.
#[derive(Debug, Clone, Copy, PartialEq, Eq, Structural)]
pub enum Inverse {
    /// `e^c`, inverting `ln`.
    Exp,
    /// `10^c`, inverting `log`.
    TenTo,
    /// `c * c`, inverting `sqrt`.
    Square,
    /// `c * c * c`, inverting `cbrt`.
    Cube,
    /// `cbrt(c)`, inverting `cube`.
    CubeRoot,
    /// `asinh(c)`, inverting `sinh`.
    Asinh,
    /// `atanh(c)`, inverting `tanh`.
    Atanh,
    /// `tan(c)`, inverting `atan`.
    Tan,
    /// `ln(c) / ln(base)`, inverting `base ^ u`.
    LogBase(u64),
    /// `base ^ c`, inverting `log(base, u)`.
    PowerOf(u64),
}

/// A strictly monotone function: its inverse, whether it preserves a
/// comparison, the closure of what it can produce, and the least value it
/// accepts (with whether that value itself is accepted) when it does not
/// accept everything.
#[derive(Debug, Clone, Copy, PartialEq, Eq)]
pub struct Monotone {
    pub inverse: Inverse,
    pub increasing: bool,
    pub range: (u64, u64),
    pub floor: Option<(u64, CompareOp)>,
}

/// The invertible application `e` is, with its argument: `ln`, `log`,
/// `sqrt`, `cbrt`, `cube`, `sinh`, `tanh` and `atan` of anything, and
/// `a ^ u` or `log(a, u)` for a literal base `a` above zero other than one.
pub open spec fn monotone_model(e: ExprModel) -> Option<(Monotone, ExprModel)> {
    let all = (NEG_INFINITY, INFINITY);
    match e.kind {
        KindModel::Unary { op, arg } => match op {
            UnaryOp::Ln => Some(
                (Monotone { inverse: Inverse::Exp, increasing: true, range: all, floor: Some((0u64, CompareOp::Gt)) }, *arg),
            ),
            UnaryOp::Log10 => Some(
                (Monotone { inverse: Inverse::TenTo, increasing: true, range: all, floor: Some((0u64, CompareOp::Gt)) }, *arg),
            ),
            UnaryOp::Sqrt => Some(
                (
                    Monotone {
                        inverse: Inverse::Square,
                        increasing: true,
                        range: (0u64, INFINITY),
                        floor: Some((0u64, CompareOp::Gte)),
                    },
                    *arg,
                ),
            ),
            UnaryOp::Cbrt => Some((Monotone { inverse: Inverse::Cube, increasing: true, range: all, floor: None }, *arg)),
            UnaryOp::Cube => Some(
                (Monotone { inverse: Inverse::CubeRoot, increasing: true, range: all, floor: None }, *arg),
            ),
            UnaryOp::Sinh => Some((Monotone { inverse: Inverse::Asinh, increasing: true, range: all, floor: None }, *arg)),
            UnaryOp::Tanh => Some(
                (Monotone { inverse: Inverse::Atanh, increasing: true, range: (MINUS_ONE, ONE), floor: None }, *arg),
            ),
            UnaryOp::Atan => Some(
                (
                    Monotone { inverse: Inverse::Tan, increasing: true, range: (MINUS_HALF_PI, HALF_PI), floor: None },
                    *arg,
                ),
            ),
            _ => None,
        },
        KindModel::Binary { op, lhs, rhs } => match lhs.kind {
            KindModel::Literal(base) => if at_most(base, 0) || base == ONE {
                None
            } else if op == BinaryOp::Pow {
                Some(
                    (
                        Monotone {
                            inverse: Inverse::LogBase(base),
                            increasing: less(ONE, base),
                            range: (0u64, INFINITY),
                            floor: None,
                        },
                        *rhs,
                    ),
                )
            } else if op == BinaryOp::LogB {
                Some(
                    (
                        Monotone {
                            inverse: Inverse::PowerOf(base),
                            increasing: less(ONE, base),
                            range: all,
                            floor: Some((0u64, CompareOp::Gt)),
                        },
                        *rhs,
                    ),
                )
            } else {
                None
            },
            _ => None,
        },
        _ => None,
    }
}

fn monotone_of(e: &Expr) -> (r: Option<(Monotone, &Expr)>)
    ensures
        match (r, monotone_model(e@)) {
            (Some((m, a)), Some((n, b))) => m == n && a@ == b,
            (None, None) => true,
            _ => false,
        },
{
    let all = (NEG_INFINITY, INFINITY);
    match &e.kind {
        Kind::Unary { op, arg } => {
            let m = match op {
                UnaryOp::Ln => Monotone {
                    inverse: Inverse::Exp,
                    increasing: true,
                    range: all,
                    floor: Some((0u64, CompareOp::Gt)),
                },
                UnaryOp::Log10 => Monotone {
                    inverse: Inverse::TenTo,
                    increasing: true,
                    range: all,
                    floor: Some((0u64, CompareOp::Gt)),
                },
                UnaryOp::Sqrt => Monotone {
                    inverse: Inverse::Square,
                    increasing: true,
                    range: (0u64, INFINITY),
                    floor: Some((0u64, CompareOp::Gte)),
                },
                UnaryOp::Cbrt => Monotone { inverse: Inverse::Cube, increasing: true, range: all, floor: None },
                UnaryOp::Cube => Monotone { inverse: Inverse::CubeRoot, increasing: true, range: all, floor: None },
                UnaryOp::Sinh => Monotone { inverse: Inverse::Asinh, increasing: true, range: all, floor: None },
                UnaryOp::Tanh => Monotone {
                    inverse: Inverse::Atanh,
                    increasing: true,
                    range: (MINUS_ONE, ONE),
                    floor: None,
                },
                UnaryOp::Atan => Monotone {
                    inverse: Inverse::Tan,
                    increasing: true,
                    range: (MINUS_HALF_PI, HALF_PI),
                    floor: None,
                },
                _ => {
                    proof {
                        assert(e@.kind == (KindModel::Unary { op: *op, arg: Box::new(model_expr(**arg)) }));
                    }
                    return None;
                },
            };
            Some((m, &**arg))
        },
        Kind::Binary { op, lhs, rhs } => {
            let base = match lhs.kind {
                Kind::Literal(base) => base,
                _ => return None,
            };
            if is_at_most(base, 0) || base == ONE {
                proof {
                    assert(lhs@.kind == KindModel::Literal(base));
                }
                return None;
            }
            match op {
                BinaryOp::Pow => Some(
                    (
                        Monotone {
                            inverse: Inverse::LogBase(base),
                            increasing: is_less(ONE, base),
                            range: (0u64, INFINITY),
                            floor: None,
                        },
                        &**rhs,
                    ),
                ),
                BinaryOp::LogB => Some(
                    (
                        Monotone {
                            inverse: Inverse::PowerOf(base),
                            increasing: is_less(ONE, base),
                            range: all,
                            floor: Some((0u64, CompareOp::Gt)),
                        },
                        &**rhs,
                    ),
                ),
                _ => None,
            }
        },
        _ => None,
    }
}

/// Whether `e` is an invertible application.
proof fn lemma_monotone_argument_scoped(e: ExprModel, f: nat, g: nat)
    requires
        scoped(e, f, g),
        monotone_model(e) is Some,
    ensures
        scoped(monotone_model(e)->Some_0.1, f, g),
{
}

// ------------------------------------------------------------ the host

/// The value the host's `inverse` gives at `c`.
pub open spec fn inverse_value<I: Fn(Inverse, u64) -> u64>(inverse: I, which: Inverse, c: u64) -> u64 {
    choose|r: u64| call_ensures(inverse, (which, c), r)
}

/// `inverse` may be called on anything, and gives one value for each call.
pub open spec fn inverse_is_function<I: Fn(Inverse, u64) -> u64>(inverse: I) -> bool {
    &&& forall|which: Inverse, c: u64| #[trigger] inverse.requires((which, c))
    &&& forall|which: Inverse, c: u64, r: u64| #[trigger] call_ensures(inverse, (which, c), r) ==> r == inverse_value(
        inverse,
        which,
        c,
    )
}

// ------------------------------------------------------------ the pass

/// A comparison node.
pub open spec fn compare_model(op: CompareOp, lhs: ExprModel, rhs: ExprModel, span: Span) -> ExprModel {
    ExprModel { kind: KindModel::Compare { op, lhs: Box::new(lhs), rhs: Box::new(rhs) }, span }
}

/// The comparison oriented as `f(u) op c`: the operator, the side that is
/// an invertible application, and the constant; `None` when neither side is
/// such an application facing a literal.
pub open spec fn oriented(op: CompareOp, lhs: ExprModel, rhs: ExprModel) -> Option<(CompareOp, ExprModel, u64)> {
    if rhs.kind is Literal && monotone_model(lhs) is Some {
        Some((op, lhs, rhs.kind->Literal_0))
    } else if lhs.kind is Literal && monotone_model(rhs) is Some {
        Some((mirror(op), rhs, lhs.kind->Literal_0))
    } else {
        None
    }
}

/// `lhs op rhs` with the function inverted away where that is sound: the
/// argument compared against the host's inverse at the constant, widened by
/// one ulp outward, and, where an upper bound or a bound below the floor
/// loses the function's domain, the domain kept beside it as the `max` of
/// the two residuals. Left exactly as found when the constant lies outside
/// what the function can produce or the inverse is not finite.
pub open spec fn inverted_comparison<I: Fn(Inverse, u64) -> u64>(
    op: CompareOp,
    lhs: ExprModel,
    rhs: ExprModel,
    span: Span,
    inverse: I,
) -> ExprModel {
    let unchanged = compare_model(op, lhs, rhs, span);
    match oriented(op, lhs, rhs) {
        None => unchanged,
        Some((o, function, c)) => {
            let (m, argument) = monotone_model(function)->Some_0;
            if less(c, m.range.0) || less(m.range.1, c) {
                unchanged
            } else {
                let o2 = if m.increasing {
                    o
                } else {
                    mirror(o)
                };
                let raw = inverse_value(inverse, m.inverse, c);
                if !finite(raw) {
                    unchanged
                } else {
                    let above = o2 == CompareOp::Lt || o2 == CompareOp::Lte;
                    let bound = if above {
                        next_up(raw)
                    } else {
                        next_down(raw)
                    };
                    let inverted = compare_model(o2, argument, literal_model(bound, span), span);
                    match m.floor {
                        None => inverted,
                        Some((floor, floor_op)) => if !above && at_most(floor, bound) {
                            inverted
                        } else {
                            compare_model(
                                CompareOp::Lte,
                                binary_model(
                                    BinaryOp::Max,
                                    residual_model(o2, argument, literal_model(bound, span), span),
                                    residual_model(floor_op, argument, literal_model(floor, span), span),
                                    span,
                                ),
                                literal_model(0, span),
                                span,
                            )
                        },
                    }
                }
            }
        },
    }
}

/// The host's arithmetic where the guard of a logarithm's domain is judged,
/// at the argument's value `x`: a logarithm of a value that is not above
/// zero is not finite; the residual of `x > 0` is `<= 0` only when `x > 0`;
/// `max` behaves as a maximum and taking zero away changes nothing about
/// being `<= 0`.
pub open spec fn logarithm_host<U: Fn(UnaryOp, u64) -> u64, B: Fn(BinaryOp, u64, u64) -> u64>(
    f: UnaryOp,
    x: u64,
    unary: U,
    binary: B,
) -> bool {
    &&& !less(0, x) ==> !finite(crate::frontend::fold::unary_value(unary, f, x))
    &&& at_most(
        crate::frontend::fold::binary_value(
            binary,
            BinaryOp::Add,
            crate::frontend::fold::binary_value(binary, BinaryOp::Sub, 0, x),
            crate::frontend::rewrite::EPSILON_BITS,
        ),
        0,
    ) ==> less(0, x)
    &&& forall|p: u64, q: u64| !nan(p) && !nan(q) ==> #[trigger] max_bounds(binary, p, q)
    &&& forall|v: u64|
        !nan(v) && at_most(#[trigger] crate::frontend::fold::binary_value(binary, BinaryOp::Sub, v, 0), 0) ==> at_most(
            v,
            0,
        )
}

/// An upper bound on a logarithm keeps its domain: once `log(u) < c` or
/// `log(u) <= c` (`ln` or base ten) has been inverted, rewritten as a
/// residual and worked out at a value `x` of `u`, it is `<= 0` only where
/// `x > 0`, as the comparison it replaced is only defined there.
pub proof fn law_inverted_logarithm_keeps_its_domain<
    U: Fn(UnaryOp, u64) -> u64,
    B: Fn(BinaryOp, u64, u64) -> u64,
    I: Fn(Inverse, u64) -> u64,
>(f: UnaryOp, op: CompareOp, arg: ExprModel, c: u64, span: Span, unary: U, binary: B, inverse: I, x: u64)
    requires
        f == UnaryOp::Log10 || f == UnaryOp::Ln,
        op == CompareOp::Lt || op == CompareOp::Lte,
        crate::frontend::fold::folded(crate::frontend::rewrite::rewritten(arg), unary, binary) matches Ok(a)
            && a.kind == KindModel::Literal(x),
        logarithm_host(f, x, unary, binary),
    ensures
        ({
            let lhs = ExprModel { kind: KindModel::Unary { op: f, arg: Box::new(arg) }, span };
            let inverted = inverted_comparison(op, lhs, literal_model(c, span), span, inverse);
            crate::frontend::fold::folded(crate::frontend::rewrite::rewritten(inverted), unary, binary) matches Ok(v)
                && v.kind matches KindModel::Literal(residual) && at_most(residual, 0) ==> less(0, x)
        }),
{
    let lhs = ExprModel { kind: KindModel::Unary { op: f, arg: Box::new(arg) }, span };
    let rhs = literal_model(c, span);
    let ra = crate::frontend::rewrite::rewritten(arg);
    let inv = inverted_comparison(op, lhs, rhs, span, inverse);
    assert(oriented(op, lhs, rhs) == Some((op, lhs, c)));
    let m = monotone_model(lhs)->Some_0.0;
    assert(m.increasing && m.floor == Some((0u64, CompareOp::Gt)));
    assert(monotone_model(lhs)->Some_0.1 == arg);
    let raw = inverse_value(inverse, m.inverse, c);
    if less(c, m.range.0) || less(m.range.1, c) || !finite(raw) {
        // Left as it was: the logarithm itself is worked out, and outside
        // its domain it is refused.
        assert(inv == compare_model(op, lhs, rhs, span));
        let rl = ExprModel { kind: KindModel::Unary { op: f, arg: Box::new(ra) }, span };
        assert(crate::frontend::rewrite::rewritten(lhs) == rl);
        assert(crate::frontend::rewrite::rewritten(rhs) == rhs);
        assert(crate::frontend::rewrite::rewritten(inv) == residual_model(op, rl, rhs, span));
        if !less(0, x) {
            assert(crate::frontend::fold::folded(rl, unary, binary) is Err);
            crate::frontend::rewrite::lemma_folded_literals(BinaryOp::Sub, rl, rhs, span, unary, binary, 0, 0);
            let d = binary_model(BinaryOp::Sub, rl, rhs, span);
            crate::frontend::rewrite::lemma_folded_literals(
                BinaryOp::Add,
                d,
                literal_model(crate::frontend::rewrite::EPSILON_BITS, span),
                span,
                unary,
                binary,
                0,
                0,
            );
        }
    } else {
        let bound = next_up(raw);
        let b = literal_model(bound, span);
        let zero = literal_model(0, span);
        let eps = literal_model(crate::frontend::rewrite::EPSILON_BITS, span);
        let guarded = compare_model(
            CompareOp::Lte,
            binary_model(BinaryOp::Max, residual_model(op, arg, b, span), residual_model(CompareOp::Gt, arg, zero, span), span),
            zero,
            span,
        );
        assert(inv == guarded);
        let r1 = residual_model(op, ra, b, span);
        let r2 = residual_model(CompareOp::Gt, ra, zero, span);
        assert(crate::frontend::rewrite::rewritten(b) == b);
        assert(crate::frontend::rewrite::rewritten(zero) == zero);
        assert(crate::frontend::rewrite::rewritten(eps) == eps);
        assert(crate::frontend::rewrite::rewritten(binary_model(BinaryOp::Sub, arg, b, span)) == binary_model(
            BinaryOp::Sub,
            ra,
            b,
            span,
        ));
        assert(crate::frontend::rewrite::rewritten(binary_model(BinaryOp::Sub, zero, arg, span)) == binary_model(
            BinaryOp::Sub,
            zero,
            ra,
            span,
        ));
        if op == CompareOp::Lt {
            assert(crate::frontend::rewrite::rewritten(
                binary_model(BinaryOp::Add, binary_model(BinaryOp::Sub, arg, b, span), eps, span),
            ) == binary_model(BinaryOp::Add, binary_model(BinaryOp::Sub, ra, b, span), eps, span));
        }
        assert(crate::frontend::rewrite::rewritten(
            binary_model(BinaryOp::Add, binary_model(BinaryOp::Sub, zero, arg, span), eps, span),
        ) == binary_model(BinaryOp::Add, binary_model(BinaryOp::Sub, zero, ra, span), eps, span));
        assert(crate::frontend::rewrite::rewritten(residual_model(op, arg, b, span)) == r1);
        assert(crate::frontend::rewrite::rewritten(residual_model(CompareOp::Gt, arg, zero, span)) == r2);
        let mx = binary_model(BinaryOp::Max, r1, r2, span);
        let max_node = binary_model(
            BinaryOp::Max,
            residual_model(op, arg, b, span),
            residual_model(CompareOp::Gt, arg, zero, span),
            span,
        );
        assert(crate::frontend::rewrite::rewritten(max_node) == mx);
        assert(inv == compare_model(CompareOp::Lte, max_node, zero, span));
        assert(crate::frontend::rewrite::rewritten(inv) == residual_model(CompareOp::Lte, mx, zero, span));
        assert(crate::frontend::rewrite::rewritten(inv) == binary_model(BinaryOp::Sub, mx, zero, span));
        // The domain's residual: (0 - x) + eps.
        let z = binary_model(BinaryOp::Sub, zero, ra, span);
        crate::frontend::rewrite::lemma_folded_literals(BinaryOp::Sub, zero, ra, span, unary, binary, 0, x);
        let zx = crate::frontend::fold::binary_value(binary, BinaryOp::Sub, 0, x);
        crate::frontend::rewrite::lemma_folded_literals(
            BinaryOp::Add,
            z,
            eps,
            span,
            unary,
            binary,
            zx,
            crate::frontend::rewrite::EPSILON_BITS,
        );
        let d = crate::frontend::fold::binary_value(binary, BinaryOp::Add, zx, crate::frontend::rewrite::EPSILON_BITS);
        // The bound's residual.
        let s1 = binary_model(BinaryOp::Sub, ra, b, span);
        crate::frontend::rewrite::lemma_folded_literals(BinaryOp::Sub, ra, b, span, unary, binary, x, bound);
        let sx = crate::frontend::fold::binary_value(binary, BinaryOp::Sub, x, bound);
        crate::frontend::rewrite::lemma_folded_literals(
            BinaryOp::Add,
            s1,
            eps,
            span,
            unary,
            binary,
            sx,
            crate::frontend::rewrite::EPSILON_BITS,
        );
        let e1 = if op == CompareOp::Lt {
            crate::frontend::fold::binary_value(binary, BinaryOp::Add, sx, crate::frontend::rewrite::EPSILON_BITS)
        } else {
            sx
        };
        crate::frontend::rewrite::lemma_folded_literals(BinaryOp::Max, r1, r2, span, unary, binary, e1, d);
        let mv = crate::frontend::fold::binary_value(binary, BinaryOp::Max, e1, d);
        crate::frontend::rewrite::lemma_folded_literals(BinaryOp::Sub, mx, zero, span, unary, binary, mv, 0);
        if crate::frontend::fold::folded(crate::frontend::rewrite::rewritten(inv), unary, binary) is Ok {
            assert(finite(e1) && finite(d) && finite(mv));
            assert(!nan(e1) && !nan(d) && !nan(mv));
            assert(max_bounds(binary, e1, d));
            let fv = crate::frontend::fold::binary_value(binary, BinaryOp::Sub, mv, 0);
            if at_most(fv, 0) {
                assert(at_most(mv, 0));
                assert(at_most(d, 0));
            }
        }
    }
}

/// What the pass makes of `e`: every comparison, its sides done first,
/// inverted where it can be.
pub open spec fn inverted<I: Fn(Inverse, u64) -> u64>(e: ExprModel, inverse: I) -> ExprModel
    decreases e,
{
    match e.kind {
        KindModel::Compare { op, lhs, rhs } => inverted_comparison(
            op,
            inverted(*lhs, inverse),
            inverted(*rhs, inverse),
            e.span,
            inverse,
        ),
        KindModel::Unary { op, arg } => ExprModel {
            kind: KindModel::Unary { op, arg: Box::new(inverted(*arg, inverse)) },
            span: e.span,
        },
        KindModel::Binary { op, lhs, rhs } => binary_model(op, inverted(*lhs, inverse), inverted(*rhs, inverse), e.span),
        KindModel::NearEq { lhs, rhs, tolerance } => ExprModel {
            kind: KindModel::NearEq {
                lhs: Box::new(inverted(*lhs, inverse)),
                rhs: Box::new(inverted(*rhs, inverse)),
                tolerance,
            },
            span: e.span,
        },
        KindModel::DynamicIndex(index) => ExprModel {
            kind: KindModel::DynamicIndex(Box::new(inverted(*index, inverse))),
            span: e.span,
        },
        KindModel::Aggregate { kind, lower, upper, param, body } => ExprModel {
            kind: KindModel::Aggregate {
                kind,
                lower: Box::new(inverted(*lower, inverse)),
                upper: Box::new(inverted(*upper, inverse)),
                param,
                body: Box::new(inverted_block(*body, inverse)),
            },
            span: e.span,
        },
        KindModel::Block(block) => ExprModel {
            kind: KindModel::Block(Box::new(inverted_block(*block, inverse))),
            span: e.span,
        },
        KindModel::Fold { kind, terms } => ExprModel {
            kind: KindModel::Fold {
                kind,
                terms: Seq::new(
                    terms.len(),
                    |i: int|
                        if 0 <= i < terms.len() {
                            inverted(terms[i], inverse)
                        } else {
                            arbitrary()
                        },
                ),
            },
            span: e.span,
        },
        _ => e,
    }
}

/// [`inverted`] for a block.
pub open spec fn inverted_block<I: Fn(Inverse, u64) -> u64>(b: BlockModel, inverse: I) -> BlockModel
    decreases b,
{
    BlockModel {
        assignments: Seq::new(
            b.assignments.len(),
            |i: int|
                if 0 <= i < b.assignments.len() {
                    AssignmentModel {
                        slot: b.assignments[i].slot,
                        value: inverted(b.assignments[i].value, inverse),
                        span: b.assignments[i].span,
                    }
                } else {
                    arbitrary()
                },
        ),
        result: inverted(b.result, inverse),
    }
}

fn literal_bits_of(e: &Expr) -> (r: Option<u64>)
    ensures
        match e@.kind {
            KindModel::Literal(b) => r == Some(b),
            _ => r is None,
        },
{
    match e.kind {
        Kind::Literal(b) => Some(b),
        _ => None,
    }
}

/// [`inverted_comparison`], on the sides already done.
fn invert_comparison<I: Fn(Inverse, u64) -> u64>(
    op: CompareOp,
    lhs: Expr,
    rhs: Expr,
    span: Span,
    inverse: &I,
) -> (out: Expr)
    requires
        inverse_is_function(*inverse),
    ensures
        out@ == inverted_comparison(op, lhs@, rhs@, span, *inverse),
{
    let on_left = match literal_bits_of(&rhs) {
        Some(_) => monotone_of(&lhs).is_some(),
        None => false,
    };
    let on_right = !on_left && match literal_bits_of(&lhs) {
        Some(_) => monotone_of(&rhs).is_some(),
        None => false,
    };
    if !on_left && !on_right {
        return Expr { kind: Kind::Compare { op, lhs: Box::new(lhs), rhs: Box::new(rhs) }, span };
    }
    let (o, c) = if on_left {
        (op, literal_bits_of(&rhs).unwrap())
    } else {
        (mirrored(op), literal_bits_of(&lhs).unwrap())
    };
    let function: &Expr = if on_left {
        &lhs
    } else {
        &rhs
    };
    let (m, argument) = monotone_of(function).unwrap();
    proof {
        assert(oriented(op, lhs@, rhs@) == Some((o, function@, c)));
    }
    if is_less(c, m.range.0) || is_less(m.range.1, c) {
        return Expr { kind: Kind::Compare { op, lhs: Box::new(lhs), rhs: Box::new(rhs) }, span };
    }
    let o2 = if m.increasing {
        o
    } else {
        mirrored(o)
    };
    let raw = inverse(m.inverse, c);
    if (raw / 0x10_0000_0000_0000) % 2048 == 2047 {
        return Expr { kind: Kind::Compare { op, lhs: Box::new(lhs), rhs: Box::new(rhs) }, span };
    }
    let above = match o2 {
        CompareOp::Lt | CompareOp::Lte => true,
        _ => false,
    };
    let bound = if above {
        step_up(raw)
    } else {
        step_down(raw)
    };
    let a = clone_expr(argument);
    match m.floor {
        None => Expr { kind: Kind::Compare { op: o2, lhs: Box::new(a), rhs: Box::new(literal(bound, span)) }, span },
        Some((floor, floor_op)) => {
            if !above && is_at_most(floor, bound) {
                Expr { kind: Kind::Compare { op: o2, lhs: Box::new(a), rhs: Box::new(literal(bound, span)) }, span }
            } else {
                let again = clone_expr(argument);
                let within = residual(o2, a, literal(bound, span), span);
                let guard = residual(floor_op, again, literal(floor, span), span);
                let both = binary(BinaryOp::Max, within, guard, span);
                Expr {
                    kind: Kind::Compare { op: CompareOp::Lte, lhs: Box::new(both), rhs: Box::new(literal(0, span)) },
                    span,
                }
            }
        },
    }
}

/// Inverts every comparison against a strictly monotone function of the
/// program, under the host's `inverse`; see [`inverted_block`]. Anything it
/// cannot invert it leaves exactly as it found it.
pub fn invert_monotone<I: Fn(Inverse, u64) -> u64>(program: Program, inverse: &I) -> (out: Program)
    requires
        inverse_is_function(*inverse),
    ensures
        out@ == (ProgramModel { body: inverted_block(program@.body, *inverse), frame_size: program.frame_size }),
{
    let Program { body, frame_size } = program;
    Program { body: invert_block(body, inverse), frame_size }
}

fn invert_block<I: Fn(Inverse, u64) -> u64>(block: Block, inverse: &I) -> (out: Block)
    requires
        inverse_is_function(*inverse),
    ensures
        out@ == inverted_block(block@, *inverse),
    decreases block,
{
    let ghost whole = block;
    let Block { assignments, result } = block;
    let mut done: Vec<Assignment> = Vec::new();
    for a in it: assignments
        invariant
            whole == block,
            it.seq() == whole.assignments@,
            inverse_is_function(*inverse),
            done@.len() == it.index(),
            forall|j: int|
                0 <= j < done@.len() ==> (#[trigger] done@[j]).slot == whole.assignments@[j].slot
                    && done@[j].span == whole.assignments@[j].span
                    && done@[j].value@ == inverted(whole.assignments@[j].value@, *inverse),
    {
        assert(a == whole.assignments@[it.index() as int]);
        assert(decreases_to!(whole => whole.assignments@[it.index() as int].value));
        let Assignment { slot, value, span } = a;
        done.push(Assignment { slot, value: invert_expr(value, inverse), span });
    }
    let out = Block { assignments: done, result: invert_expr(result, inverse) };
    proof {
        assert(model_block(out).assignments =~= inverted_block(model_block(whole), *inverse).assignments);
    }
    out
}

fn invert_expr<I: Fn(Inverse, u64) -> u64>(node: Expr, inverse: &I) -> (out: Expr)
    requires
        inverse_is_function(*inverse),
    ensures
        out@ == inverted(node@, *inverse),
    decreases node,
{
    let ghost whole = node;
    let Expr { kind, span } = node;
    match kind {
        Kind::Compare { op, lhs, rhs } => {
            let lhs = invert_expr(*lhs, inverse);
            let rhs = invert_expr(*rhs, inverse);
            invert_comparison(op, lhs, rhs, span, inverse)
        },
        Kind::NearEq { lhs, rhs, tolerance } => Expr {
            kind: Kind::NearEq {
                lhs: Box::new(invert_expr(*lhs, inverse)),
                rhs: Box::new(invert_expr(*rhs, inverse)),
                tolerance,
            },
            span,
        },
        Kind::Unary { op, arg } => Expr { kind: Kind::Unary { op, arg: Box::new(invert_expr(*arg, inverse)) }, span },
        Kind::Binary { op, lhs, rhs } => {
            let lhs = invert_expr(*lhs, inverse);
            let rhs = invert_expr(*rhs, inverse);
            binary(op, lhs, rhs, span)
        },
        Kind::DynamicIndex(index) => Expr { kind: Kind::DynamicIndex(Box::new(invert_expr(*index, inverse))), span },
        Kind::Aggregate { kind, lower, upper, param, body } => Expr {
            kind: Kind::Aggregate {
                kind,
                lower: Box::new(invert_expr(*lower, inverse)),
                upper: Box::new(invert_expr(*upper, inverse)),
                param,
                body: Box::new(invert_block(*body, inverse)),
            },
            span,
        },
        Kind::Block(block) => Expr { kind: Kind::Block(Box::new(invert_block(*block, inverse))), span },
        Kind::Fold { kind, terms } => {
            let mut done: Vec<Expr> = Vec::new();
            for t in it: terms
                invariant
                    whole == node,
                    whole.kind == (Kind::Fold { kind, terms: whole.kind->terms }),
                    it.seq() == whole.kind->terms@,
                    inverse_is_function(*inverse),
                    done@.len() == it.index(),
                    forall|j: int|
                        0 <= j < done@.len() ==> (#[trigger] done@[j])@ == inverted(whole.kind->terms@[j]@, *inverse),
            {
                assert(t == whole.kind->terms@[it.index() as int]);
                assert(decreases_to!(whole => whole.kind->terms@[it.index() as int]));
                done.push(invert_expr(t, inverse));
            }
            let out = Expr { kind: Kind::Fold { kind, terms: done }, span };
            proof {
                assert(model_expr(out).kind->terms =~= inverted(model_expr(whole), *inverse).kind->terms);
            }
            out
        },
        Kind::Literal(bits) => Expr { kind: Kind::Literal(bits), span },
        Kind::Global(id) => Expr { kind: Kind::Global(id), span },
        Kind::Local(slot) => Expr { kind: Kind::Local(slot), span },
    }
}

/// A comparison keeps every name in scope when inverted.
proof fn lemma_inverted_comparison_scoped<I: Fn(Inverse, u64) -> u64>(
    op: CompareOp,
    lhs: ExprModel,
    rhs: ExprModel,
    span: Span,
    inverse: I,
    f: nat,
    g: nat,
)
    requires
        scoped(lhs, f, g),
        scoped(rhs, f, g),
    ensures
        scoped(inverted_comparison(op, lhs, rhs, span, inverse), f, g),
{
    reveal_with_fuel(scoped, 4);
    match oriented(op, lhs, rhs) {
        None => {},
        Some((o, function, c)) => {
            lemma_monotone_argument_scoped(function, f, g);
            let argument = monotone_model(function)->Some_0.1;
            let m = monotone_model(function)->Some_0.0;
            assert(scoped(literal_model(0, span), f, g));
            match m.floor {
                Some((floor, floor_op)) => {
                    let o2 = if m.increasing {
                        o
                    } else {
                        mirror(o)
                    };
                    let raw = inverse_value(inverse, m.inverse, c);
                    let above = o2 == CompareOp::Lt || o2 == CompareOp::Lte;
                    let bound = if above {
                        next_up(raw)
                    } else {
                        next_down(raw)
                    };
                    let within = residual_model(o2, argument, literal_model(bound, span), span);
                    let guard = residual_model(floor_op, argument, literal_model(floor, span), span);
                    assert(scoped(within, f, g));
                    assert(scoped(guard, f, g));
                },
                None => {},
            }
        },
    }
}

/// Inversion keeps every name in scope.
pub proof fn lemma_invert_scoped<I: Fn(Inverse, u64) -> u64>(e: ExprModel, f: nat, g: nat, inverse: I)
    requires
        scoped(e, f, g),
    ensures
        scoped(inverted(e, inverse), f, g),
    decreases e,
{
    match e.kind {
        KindModel::Compare { op, lhs, rhs } => {
            lemma_invert_scoped(*lhs, f, g, inverse);
            lemma_invert_scoped(*rhs, f, g, inverse);
            lemma_inverted_comparison_scoped(
                op,
                inverted(*lhs, inverse),
                inverted(*rhs, inverse),
                e.span,
                inverse,
                f,
                g,
            );
        },
        KindModel::Unary { arg, .. } => lemma_invert_scoped(*arg, f, g, inverse),
        KindModel::Binary { lhs, rhs, .. } => {
            lemma_invert_scoped(*lhs, f, g, inverse);
            lemma_invert_scoped(*rhs, f, g, inverse);
        },
        KindModel::NearEq { lhs, rhs, .. } => {
            lemma_invert_scoped(*lhs, f, g, inverse);
            lemma_invert_scoped(*rhs, f, g, inverse);
        },
        KindModel::DynamicIndex(index) => lemma_invert_scoped(*index, f, g, inverse),
        KindModel::Aggregate { lower, upper, body, .. } => {
            lemma_invert_scoped(*lower, f, g, inverse);
            lemma_invert_scoped(*upper, f, g, inverse);
            lemma_invert_block_scoped(*body, f, g, inverse);
        },
        KindModel::Block(block) => lemma_invert_block_scoped(*block, f, g, inverse),
        KindModel::Fold { terms, .. } => {
            let out = inverted(e, inverse).kind->terms;
            assert forall|i: int| 0 <= i < out.len() implies scoped(#[trigger] out[i], f, g) by {
                lemma_invert_scoped(terms[i], f, g, inverse);
            }
        },
        _ => {},
    }
}

/// [`lemma_invert_scoped`] for a block.
pub proof fn lemma_invert_block_scoped<I: Fn(Inverse, u64) -> u64>(b: BlockModel, f: nat, g: nat, inverse: I)
    requires
        scoped_block(b, f, g),
    ensures
        scoped_block(inverted_block(b, inverse), f, g),
    decreases b,
{
    let out = inverted_block(b, inverse);
    assert forall|i: int| 0 <= i < out.assignments.len() implies {
        let a = #[trigger] out.assignments[i];
        &&& a.slot.0 < f
        &&& scoped(a.value, a.slot.0 as nat, g)
    } by {
        let a = b.assignments[i];
        assert(scoped(a.value, a.slot.0 as nat, g));
        lemma_invert_scoped(a.value, a.slot.0 as nat, g, inverse);
    }
    lemma_invert_scoped(b.result, f, g, inverse);
}

} // verus!
