//! Whole numbers in and out of IEEE-754 binary64 bit patterns.
//!
//! A literal in the tree is the bit pattern of the value it denotes. Two
//! things are asked of such a value without any arithmetic on it: whether it
//! is a whole number an index can hold, and which pattern an index becomes
//! when it is put back into a literal. Both are answered here from the fields
//! of the encoding: a sign bit, an eleven-bit biased exponent and a 52-bit
//! fraction.
use vstd::prelude::*;
use vstd::arithmetic::div_mod::{
    lemma_div_multiples_vanish, lemma_div_multiples_vanish_fancy, lemma_fundamental_div_mod,
    lemma_mod_multiples_basic, lemma_mod_multiples_vanish,
};
use vstd::arithmetic::mul::{lemma_mul_is_commutative, lemma_mul_strict_inequality, lemma_mul_inequality};

verus! {

/// `2^k`.
pub open spec fn two_to(k: nat) -> nat
    decreases k,
{
    if k == 0 {
        1
    } else {
        2 * two_to((k - 1) as nat)
    }
}

/// `2^52`, the weight of the implicit leading bit.
pub const HIDDEN_BIT: u64 = 0x10_0000_0000_0000;

/// `2^63`, the weight of the sign bit.
pub const SIGN_BIT: u64 = 0x8000_0000_0000_0000;

/// The biased exponent field.
pub open spec fn exponent_field(bits: u64) -> nat {
    ((bits / HIDDEN_BIT) % 2048) as nat
}

/// The fraction field.
pub open spec fn fraction_field(bits: u64) -> nat {
    (bits % HIDDEN_BIT) as nat
}

/// The sign bit is set.
pub open spec fn is_negative(bits: u64) -> bool {
    bits >= SIGN_BIT
}

/// The magnitude of the value `bits` encodes, if it is a whole number.
pub open spec fn integral_magnitude(bits: u64) -> Option<nat> {
    let e = exponent_field(bits);
    let f = fraction_field(bits);
    let significand = HIDDEN_BIT + f;
    if e == 2047 {
        // an infinity or a NaN
        None
    } else if e == 0 {
        // zero, or a subnormal strictly between zero and one
        if f == 0 {
            Some(0)
        } else {
            None
        }
    } else if e >= 1075 {
        Some((significand * two_to((e - 1075) as nat)) as nat)
    } else if e < 1023 {
        None
    } else if significand % (two_to((1075 - e) as nat) as int) == 0 {
        Some((significand / (two_to((1075 - e) as nat) as int)) as nat)
    } else {
        None
    }
}

/// The value `bits` encodes, if it is finite and a whole number.
pub open spec fn integral_value(bits: u64) -> Option<int> {
    match integral_magnitude(bits) {
        Some(m) => Some(if is_negative(bits) { -m } else { m as int }),
        None => None,
    }
}

/// The index a literal denotes: its value, when that is a whole number an
/// `i64` can hold.
pub open spec fn index_of(bits: u64) -> Option<i64> {
    match integral_value(bits) {
        Some(v) => if i64::MIN <= v <= i64::MAX {
            Some(v as i64)
        } else {
            None
        },
        None => None,
    }
}

/// The position of the highest set bit of `a`.
pub open spec fn top_bit(a: nat) -> nat
    decreases a,
{
    if a < 2 {
        0
    } else {
        1 + top_bit(a / 2)
    }
}

/// `a` rounded to 53 significant bits, half to even: the magnitude of the
/// binary64 value nearest to `a`.
pub open spec fn rounded_magnitude(a: nat) -> nat {
    let p = top_bit(a);
    if p <= 52 {
        a
    } else {
        let s = (p - 52) as nat;
        let q = a / two_to(s);
        let r = a % two_to(s);
        let half = two_to((s - 1) as nat);
        let q2 = if r > half || (r == half && q % 2 == 1) {
            q + 1
        } else {
            q
        };
        q2 * two_to(s)
    }
}

/// The value the binary64 conversion of the whole number `k` takes.
pub open spec fn nearest_value(k: int) -> int {
    if k < 0 {
        -rounded_magnitude((-k) as nat)
    } else {
        rounded_magnitude(k as nat) as int
    }
}

proof fn lemma_two_to_adds(a: nat, b: nat)
    ensures
        two_to(a + b) == two_to(a) * two_to(b),
    decreases a,
{
    if a > 0 {
        lemma_two_to_adds((a - 1) as nat, b);
        assert((a + b - 1) as nat == ((a - 1) as nat + b) as nat);
        assert(two_to(a + b) == 2 * two_to(((a - 1) as nat + b) as nat));
        assert(two_to(a) == 2 * two_to((a - 1) as nat));
        let x = two_to((a - 1) as nat);
        let y = two_to(b);
        assert(2 * (x * y) == (2 * x) * y) by (nonlinear_arith);
        assert(two_to(((a - 1) as nat + b) as nat) == x * y);
        assert(two_to(a + b) == two_to(a) * two_to(b));
    } else {
        assert(two_to(0) == 1);
        assert(two_to(a + b) == two_to(b));
    }
}

proof fn lemma_two_to_positive(a: nat)
    ensures
        two_to(a) >= 1,
    decreases a,
{
    if a > 0 {
        lemma_two_to_positive((a - 1) as nat);
    }
}

proof fn lemma_two_to_grows(a: nat, b: nat)
    requires
        a <= b,
    ensures
        two_to(a) <= two_to(b),
    decreases b,
{
    if a < b {
        lemma_two_to_grows(a, (b - 1) as nat);
    }
}

proof fn lemma_two_to_values()
    ensures
        two_to(52) == HIDDEN_BIT,
        two_to(53) == 2 * HIDDEN_BIT,
        two_to(63) == SIGN_BIT,
        two_to(64) == 0x1_0000_0000_0000_0000,
{
    reveal_with_fuel(two_to, 65);
}

/// `top_bit` locates the highest set bit.
proof fn lemma_top_bit(a: nat)
    requires
        a >= 1,
    ensures
        two_to(top_bit(a)) <= a < two_to(top_bit(a) + 1),
    decreases a,
{
    if a >= 2 {
        lemma_top_bit(a / 2);
    }
}

/// The highest set bit is the only `t` with `2^t <= a < 2^(t + 1)`.
proof fn lemma_top_bit_unique(a: nat, t: nat)
    requires
        two_to(t) <= a < two_to(t + 1),
    ensures
        top_bit(a) == t,
{
    lemma_two_to_positive(t);
    lemma_top_bit(a);
    if top_bit(a) < t {
        lemma_two_to_grows(top_bit(a) + 1, t);
    } else if top_bit(a) > t {
        lemma_two_to_grows(t + 1, top_bit(a));
    }
}

/// A pattern is its sign, exponent and fraction fields put back together.
proof fn lemma_fields_compose(b: u64)
    ensures
        b == (if is_negative(b) { SIGN_BIT as int } else { 0 }) + exponent_field(b) * HIDDEN_BIT
            + fraction_field(b),
{
    let hi = b / HIDDEN_BIT;
    lemma_fundamental_div_mod(b as int, HIDDEN_BIT as int);
    lemma_fundamental_div_mod(hi as int, 2048);
    let top = hi / 2048;
    assert(top < 2);
    assert(b == HIDDEN_BIT * (2048 * top + hi % 2048) + b % HIDDEN_BIT);
    assert(HIDDEN_BIT * (2048 * top + hi % 2048) == top * SIGN_BIT + (hi % 2048) * HIDDEN_BIT)
        by (nonlinear_arith)
        requires
            SIGN_BIT == HIDDEN_BIT * 2048,
    ;
    if top == 1 {
        assert(b >= SIGN_BIT);
    } else {
        assert((hi % 2048) * HIDDEN_BIT + b % HIDDEN_BIT < SIGN_BIT) by (nonlinear_arith)
            requires
                hi % 2048 < 2048,
                b % HIDDEN_BIT < HIDDEN_BIT,
                SIGN_BIT == HIDDEN_BIT * 2048,
        ;
    }
}

/// A nonzero whole magnitude fixes the exponent and fraction that encode it.
proof fn lemma_magnitude_fixes_fields(b: u64, m: nat)
    requires
        integral_magnitude(b) == Some(m),
        m > 0,
    ensures
        exponent_field(b) >= 1023,
        top_bit(m) == exponent_field(b) - 1023,
        exponent_field(b) >= 1075 ==> HIDDEN_BIT + fraction_field(b) == m / two_to(
            (exponent_field(b) - 1075) as nat,
        ),
        exponent_field(b) < 1075 ==> HIDDEN_BIT + fraction_field(b) == m * two_to(
            (1075 - exponent_field(b)) as nat,
        ),
{
    lemma_two_to_values();
    let e = exponent_field(b);
    let sig = HIDDEN_BIT + fraction_field(b);
    assert(HIDDEN_BIT <= sig < 2 * HIDDEN_BIT);
    if e >= 1075 {
        let k = (e - 1075) as nat;
        lemma_two_to_positive(k);
        lemma_two_to_adds(52, k);
        lemma_two_to_adds(53, k);
        assert(m == sig * two_to(k));
        assert(two_to(52) * two_to(k) <= sig * two_to(k) < two_to(53) * two_to(k)) by (nonlinear_arith)
            requires
                two_to(52) <= sig < two_to(53),
                two_to(k) >= 1,
        ;
        assert((52 + k) as nat == e - 1023);
        lemma_top_bit_unique(m, (52 + k) as nat);
        lemma_mul_is_commutative(sig as int, two_to(k) as int);
        lemma_div_multiples_vanish(sig as int, two_to(k) as int);
    } else {
        let k = (1075 - e) as nat;
        lemma_two_to_positive(k);
        lemma_fundamental_div_mod(sig as int, two_to(k) as int);
        assert(sig == two_to(k) * m);
        lemma_two_to_adds((e - 1023) as nat, k);
        lemma_two_to_adds((e - 1022) as nat, k);
        assert((e - 1023 + k) as nat == 52);
        assert(two_to((e - 1023) as nat) * two_to(k) <= m * two_to(k));
        assert(m * two_to(k) < two_to((e - 1022) as nat) * two_to(k));
        assert(two_to((e - 1023) as nat) <= m) by (nonlinear_arith)
            requires
                two_to((e - 1023) as nat) * two_to(k) <= m * two_to(k),
                two_to(k) >= 1,
        ;
        assert(m < two_to((e - 1022) as nat)) by (nonlinear_arith)
            requires
                m * two_to(k) < two_to((e - 1022) as nat) * two_to(k),
                two_to(k) >= 1,
        ;
        assert((e - 1022) as nat == (e - 1023) as nat + 1);
        lemma_top_bit_unique(m, (e - 1023) as nat);
        lemma_mul_is_commutative(m as int, two_to(k) as int);
    }
}

/// Two patterns that encode the same nonzero whole number are the same
/// pattern.
pub proof fn lemma_integral_value_injective(b1: u64, b2: u64)
    requires
        integral_value(b1) == integral_value(b2),
        integral_value(b1) is Some,
        integral_value(b1) != Some(0int),
    ensures
        b1 == b2,
{
    let m1 = integral_magnitude(b1)->0;
    let m2 = integral_magnitude(b2)->0;
    assert(m1 > 0 && m2 > 0);
    assert(is_negative(b1) == is_negative(b2));
    assert(m1 == m2);
    lemma_magnitude_fixes_fields(b1, m1);
    lemma_magnitude_fixes_fields(b2, m2);
    lemma_fields_compose(b1);
    lemma_fields_compose(b2);
}

/// The pattern of the binary64 value nearest to `k`: positive zero for zero.
pub open spec fn index_literal(k: i64) -> u64 {
    if k == 0 {
        0
    } else {
        choose|b: u64| integral_value(b) == Some(nearest_value(k as int))
    }
}

proof fn lemma_rounded_positive(a: nat)
    requires
        a >= 1,
    ensures
        rounded_magnitude(a) > 0,
{
    let p = top_bit(a);
    if p > 52 {
        let s = (p - 52) as nat;
        lemma_top_bit(a);
        lemma_two_to_positive(s);
        lemma_two_to_adds(52, s);
        lemma_two_to_values();
        assert(a / two_to(s) >= 1) by {
            lemma_fundamental_div_mod(a as int, two_to(s) as int);
            if a / two_to(s) == 0 {
                assert(two_to(52) * two_to(s) >= 2 * two_to(s)) by (nonlinear_arith)
                    requires two_to(52) >= 2, two_to(s) >= 1;
            }
        }
        let q = a / two_to(s);
        assert(q * two_to(s) >= 1) by (nonlinear_arith)
            requires q >= 1, two_to(s) >= 1;
        assert((q + 1) * two_to(s) >= 1) by (nonlinear_arith)
            requires q >= 1, two_to(s) >= 1;
    }
}

/// `2^k` for `k < 64`.
fn two_to_u64(k: u64) -> (p: u64)
    requires
        k < 64,
    ensures
        p == two_to(k as nat),
{
    let mut p: u64 = 1;
    let mut j: u64 = 0;
    while j < k
        invariant
            j <= k < 64,
            p == two_to(j as nat),
        decreases k - j,
    {
        proof {
            lemma_two_to_grows((j + 1) as nat, 63);
            lemma_two_to_values();
        }
        p = p * 2;
        j += 1;
    }
    p
}

/// The fields of a pattern assembled from a sign, an exponent and a fraction.
proof fn lemma_fields(s: nat, e: nat, f: nat)
    requires
        s < 2,
        e < 2048,
        f < HIDDEN_BIT,
    ensures
        ({
            let bits = s * SIGN_BIT + e * HIDDEN_BIT + f;
            &&& bits < 0x1_0000_0000_0000_0000
            &&& exponent_field(bits as u64) == e
            &&& fraction_field(bits as u64) == f
            &&& is_negative(bits as u64) == (s == 1)
        }),
{
    let bits = s * SIGN_BIT + e * HIDDEN_BIT + f;
    assert(s * SIGN_BIT == HIDDEN_BIT * (s * 2048)) by (nonlinear_arith)
        requires
            SIGN_BIT == HIDDEN_BIT * 2048,
    ;
    assert(e * HIDDEN_BIT == HIDDEN_BIT * e) by (nonlinear_arith);
    let high = s * 2048 + e;
    assert(bits == HIDDEN_BIT * high + f) by (nonlinear_arith)
        requires
            bits == s * SIGN_BIT + e * HIDDEN_BIT + f,
            s * SIGN_BIT == HIDDEN_BIT * (s * 2048),
            e * HIDDEN_BIT == HIDDEN_BIT * e,
            high == s * 2048 + e,
    ;
    assert(high < 4096);
    assert(bits < 0x1_0000_0000_0000_0000) by (nonlinear_arith)
        requires
            bits == HIDDEN_BIT * high + f,
            high < 4096,
            f < HIDDEN_BIT,
            HIDDEN_BIT == 0x10_0000_0000_0000,
    ;
    lemma_div_multiples_vanish_fancy(high as int, f as int, HIDDEN_BIT as int);
    lemma_mod_multiples_vanish(high as int, f as int, HIDDEN_BIT as int);
    lemma_mod_multiples_vanish(s as int, e as int, 2048);
    assert((2048 * s + e) % 2048 == e % 2048);
    assert(e * HIDDEN_BIT + f < SIGN_BIT) by (nonlinear_arith)
        requires
            e < 2048,
            f < HIDDEN_BIT,
            SIGN_BIT == HIDDEN_BIT * 2048,
    ;
}

/// The index a literal denotes: its value, when that is a whole number an
/// `i64` can hold. NaN, the infinities, fractions and values out of range
/// have none. Both zeros denote `0`.
pub fn to_index(bits: u64) -> (index: Option<i64>)
    ensures
        index == index_of(bits),
{
    let e = (bits / HIDDEN_BIT) % 2048;
    let f = bits % HIDDEN_BIT;
    let negative = bits >= SIGN_BIT;
    proof {
        lemma_two_to_values();
    }
    if e == 2047 {
        return None;
    }
    if e == 0 {
        return if f == 0 {
            Some(0)
        } else {
            None
        };
    }
    let significand = HIDDEN_BIT + f;
    let magnitude: u64;
    if e >= 1075 {
        // Past 2^63 nothing fits an i64, whatever the sign.
        if e - 1075 > 11 {
            proof {
                lemma_two_to_grows(12, (e - 1075) as nat);
                assert(two_to(12) == 4096) by {
                    reveal_with_fuel(two_to, 13);
                }
                assert(significand * two_to((e - 1075) as nat) >= HIDDEN_BIT * 4096) by (nonlinear_arith)
                    requires
                        significand >= HIDDEN_BIT,
                        two_to((e - 1075) as nat) >= 4096,
                ;
            }
            return None;
        }
        let p = two_to_u64(e - 1075);
        proof {
            lemma_two_to_positive((e - 1075) as nat);
            lemma_two_to_grows((e - 1075) as nat, 11);
            assert(two_to(11) == 2048) by {
                reveal_with_fuel(two_to, 12);
            }
            assert(significand * p < (2 * HIDDEN_BIT) * 2048) by (nonlinear_arith)
                requires
                    significand < 2 * HIDDEN_BIT,
                    1 <= p <= 2048,
            ;
        }
        magnitude = significand * p;
    } else if e < 1023 {
        return None;
    } else {
        let p = two_to_u64(1075 - e);
        proof {
            lemma_two_to_positive((1075 - e) as nat);
        }
        if significand % p != 0 {
            return None;
        }
        magnitude = significand / p;
    }
    if negative {
        if magnitude > SIGN_BIT {
            None
        } else if magnitude == SIGN_BIT {
            Some(i64::MIN)
        } else {
            Some(-(magnitude as i64))
        }
    } else {
        if magnitude >= SIGN_BIT {
            None
        } else {
            Some(magnitude as i64)
        }
    }
}

/// A magnitude with at most 53 significant bits, shifted up to a full
/// significand, is encoded exactly.
proof fn lemma_encode_exact(s: nat, p: nat, an: nat, significand: nat)
    requires
        s < 2,
        p <= 52,
        two_to(p) <= an < two_to(p + 1),
        significand == an * two_to((52 - p) as nat),
        HIDDEN_BIT <= significand < 2 * HIDDEN_BIT,
    ensures
        ({
            let bits = s * SIGN_BIT + (1023 + p) * HIDDEN_BIT + (significand - HIDDEN_BIT);
            &&& bits < 0x1_0000_0000_0000_0000
            &&& integral_magnitude(bits as u64) == Some(an)
            &&& is_negative(bits as u64) == (s == 1)
        }),
{
    let exponent = 1023 + p;
    lemma_fields(s, exponent, (significand - HIDDEN_BIT) as nat);
    let bits = (s * SIGN_BIT + exponent * HIDDEN_BIT + (significand - HIDDEN_BIT)) as u64;
    assert(HIDDEN_BIT + fraction_field(bits) == significand);
    if exponent >= 1075 {
        assert(exponent == 1075);
        assert((52 - p) as nat == 0);
        assert(two_to(0) == 1);
        assert(an * 1 == an);
        assert(significand == an);
    } else {
        let j = (1075 - exponent) as nat;
        assert(j == 52 - p);
        lemma_two_to_positive(j);
        lemma_mul_is_commutative(an as int, two_to(j) as int);
        lemma_mod_multiples_basic(an as int, two_to(j) as int);
        lemma_div_multiples_vanish(an as int, two_to(j) as int);
    }
}

/// The pattern of the binary64 value nearest to the nonzero `k`, ties to even.
#[verifier::spinoff_prover]
#[verifier::rlimit(50)]
fn encode_nearest(k: i64) -> (bits: u64)
    requires
        k != 0,
    ensures
        integral_value(bits) == Some(nearest_value(k as int)),
        nearest_value(k as int) != 0,
        -0x20_0000_0000_0000 <= k <= 0x20_0000_0000_0000 ==> nearest_value(k as int) == k,
{
    proof {
        lemma_two_to_values();
    }
    let negative = k < 0;
    let a: u64 = if k == i64::MIN {
        SIGN_BIT
    } else if negative {
        (-k) as u64
    } else {
        k as u64
    };
    let ghost an = a as nat;
    proof {
        lemma_top_bit(an);
        if top_bit(an) >= 64 {
            lemma_two_to_grows(64, top_bit(an));
        }
    }
    // The highest set bit.
    let mut x = a;
    let mut p: u64 = 0;
    while x >= 2
        invariant
            x >= 1,
            top_bit(an) == p + top_bit(x as nat),
            p + top_bit(x as nat) <= 63,
        decreases x,
    {
        x = x / 2;
        p = p + 1;
    }
    proof {
        lemma_top_bit(an);
        assert(top_bit(an) == p);
        if p >= 64 {
            lemma_two_to_grows(64, p as nat);
        }
    }
    let sign: u64 = if negative {
        SIGN_BIT
    } else {
        0
    };
    let ghost s: nat = if negative { 1 } else { 0 };
    let exponent: u64;
    let significand: u64;
    if p <= 52 {
        let lift = two_to_u64(52 - p);
        proof {
            lemma_two_to_positive((52 - p) as nat);
            lemma_two_to_adds(p as nat, (52 - p) as nat);
            lemma_two_to_adds((p + 1) as nat, (52 - p) as nat);
            assert(an * lift < two_to((p + 1) as nat) * lift) by (nonlinear_arith)
                requires
                    an < two_to((p + 1) as nat),
                    lift >= 1,
            ;
            lemma_two_to_positive((52 - p) as nat);
            assert(two_to(p as nat) * lift <= an * lift) by (nonlinear_arith)
                requires
                    two_to(p as nat) <= an,
                    lift >= 1,
            ;
        }
        significand = a * lift;
        exponent = 1023 + p;
        proof {
            lemma_encode_exact(s, p as nat, an, significand as nat);
        }
    } else {
        let shift = p - 52;
        let unit = two_to_u64(shift);
        let half = two_to_u64(shift - 1);
        proof {
            lemma_two_to_positive(shift as nat);
        }
        let q = a / unit;
        let r = a % unit;
        let up = r > half || (r == half && q % 2 == 1);
        proof {
            lemma_two_to_adds(52, shift as nat);
            lemma_two_to_adds(53, shift as nat);
            lemma_fundamental_div_mod(an as int, unit as int);
            lemma_mul_is_commutative(q as int, unit as int);
            assert(q * unit <= an);
            assert((p + 1) as nat == 53 + shift);
            assert(an < two_to(53 + shift as nat));
            assert(an < 2 * HIDDEN_BIT * unit);
            assert(p as nat == 52 + shift);
            assert(HIDDEN_BIT * unit <= an);
            assert(HIDDEN_BIT <= q < 2 * HIDDEN_BIT) by (nonlinear_arith)
                requires
                    q * unit <= an,
                    an == unit * q + r,
                    0 <= r < unit,
                    an < 2 * HIDDEN_BIT * unit,
                    HIDDEN_BIT * unit <= an,
                    unit >= 1,
            ;
        }
        let q2 = if up {
            q + 1
        } else {
            q
        };
        if q2 == 2 * HIDDEN_BIT {
            significand = HIDDEN_BIT;
            exponent = 1023 + p + 1;
            proof {
                lemma_fields(s, exponent as nat, 0);
                lemma_two_to_adds(1, shift as nat);
                assert(two_to(1) == 2) by {
                    reveal_with_fuel(two_to, 2);
                }
                let bits = (s * SIGN_BIT + exponent * HIDDEN_BIT) as u64;
                assert((exponent - 1075) as nat == shift + 1);
                assert(integral_magnitude(bits) == Some((HIDDEN_BIT * two_to((shift + 1) as nat)) as nat));
                assert(HIDDEN_BIT * (2 * unit) == (2 * HIDDEN_BIT) * unit) by (nonlinear_arith);
            }
        } else {
            significand = q2;
            exponent = 1023 + p;
            proof {
                lemma_fields(s, exponent as nat, (significand - HIDDEN_BIT) as nat);
            }
        }
    }
    let bits = sign + exponent * HIDDEN_BIT + (significand - HIDDEN_BIT);
    proof {
        assert(nearest_value(k as int) != 0) by {
            lemma_top_bit(an);
            if negative {
                assert(rounded_magnitude(an) > 0) by {
                    lemma_rounded_positive(an);
                }
            } else {
                lemma_rounded_positive(an);
            }
        }

        if negative {
            assert(nearest_value(k as int) == -rounded_magnitude(an));
        }
        if -0x20_0000_0000_0000 <= k <= 0x20_0000_0000_0000 {
            assert(an <= 0x20_0000_0000_0000);
            if p > 52 {
                lemma_two_to_grows(53, p as nat);
                assert(an >= two_to(53));
                assert(an == 0x20_0000_0000_0000);
                assert(top_bit(an) == 53) by {
                    lemma_top_bit(an);
                    if top_bit(an) > 53 {
                        lemma_two_to_grows(54, top_bit(an));
                        assert(two_to(54) == 0x40_0000_0000_0000) by {
                            reveal_with_fuel(two_to, 55);
                        }
                    }
                }
                assert(two_to(1) == 2) by {
                    reveal_with_fuel(two_to, 2);
                }
                assert(an / 2 == 0x10_0000_0000_0000);
                assert(an % 2 == 0);
            }
        }
    }
    bits
}

/// The bit pattern of the binary64 value nearest to `k`, ties to even: what
/// converting `k` to a float gives. Zero becomes positive zero, and every
/// `k` with `|k| <= 2^53` is exact.
pub fn index_bits(k: i64) -> (bits: u64)
    ensures
        bits == index_literal(k),
        integral_value(bits) == Some(nearest_value(k as int)),
        k == 0 ==> bits == 0,
        -0x20_0000_0000_0000 <= k <= 0x20_0000_0000_0000 ==> nearest_value(k as int) == k,
{
    if k == 0 {
        proof {
            lemma_fields(0, 0, 0);
            assert(nearest_value(0) == 0);
        }
        return 0;
    }
    let bits = encode_nearest(k);
    proof {
        let chosen = choose|b: u64| integral_value(b) == Some(nearest_value(k as int));
        lemma_integral_value_injective(chosen, bits);
    }
    bits
}

} // verus!
