//! A binary logarithm in fixed-point arithmetic.
//!
//! `log2_fixed(x)` approximates `log2(x)` in units of `1 / LOG_ONE`. It is
//! computed by scaling `x` into `[2^62, 2^63)` and squaring 24 times, each
//! squaring giving one more binary digit.

use vstd::prelude::*;
use vstd::arithmetic::power::{lemma_pow1, lemma_pow_multiplies, lemma_square_is_pow2, pow};
use vstd::arithmetic::power2::{
    lemma2_to64, lemma2_to64_rest, lemma_pow2_adds, lemma_pow2_pos, lemma_pow2_unfold, pow2,
};

verus! {

/// The value of `log2_fixed` that stands for a logarithm of 1.
pub const LOG_ONE: u64 = 0x100_0000;

/// Largest argument of [`log2`], exclusive.
pub const LOG_LIMIT: u64 = 0x8000_0000_0000_0000;

/// The digits that `steps` squarings of `y / 2^62` add to `whole`.
pub open spec fn refine(y: nat, whole: nat, steps: nat) -> nat
    decreases steps,
{
    if steps == 0 {
        whole
    } else {
        let sq = ((y * y) / 0x4000_0000_0000_0000) as nat;
        if sq >= 0x8000_0000_0000_0000 {
            refine(sq / 2, 2 * whole + 1, (steps - 1) as nat)
        } else {
            refine(sq, 2 * whole, (steps - 1) as nat)
        }
    }
}

/// The logarithm of `y * 2^(whole - 62)`: `y` is doubled until it reaches
/// `2^62`, and `whole` counts down with it.
pub open spec fn log2_scaled(y: nat, whole: nat) -> nat
    decreases whole,
{
    if 0 < y < 0x4000_0000_0000_0000 && whole > 0 {
        log2_scaled(2 * y, (whole - 1) as nat)
    } else {
        refine(y, whole, 24)
    }
}

/// The binary logarithm of `x` in units of `1 / LOG_ONE`.
pub open spec fn log2_fixed(x: nat) -> nat {
    log2_scaled(x, 62)
}

/// Every digit added keeps the value between `whole` and `whole + 1`.
pub proof fn lemma_refine_bounds(y: nat, whole: nat, steps: nat)
    ensures
        whole * pow2(steps) <= refine(y, whole, steps) < (whole + 1) * pow2(steps),
    decreases steps,
{
    if steps == 0 {
        lemma2_to64();
    } else {
        let sq = ((y * y) / 0x4000_0000_0000_0000) as nat;
        let p = pow2((steps - 1) as nat);
        lemma_pow2_unfold(steps);
        assert(pow2(steps) == 2 * p);
        if sq >= 0x8000_0000_0000_0000 {
            lemma_refine_bounds(sq / 2, 2 * whole + 1, (steps - 1) as nat);
            assert((2 * whole + 1) * p >= whole * (2 * p)) by (nonlinear_arith)
                requires
                    p >= 0,
            ;
            assert((2 * whole + 1 + 1) * p == (whole + 1) * (2 * p)) by (nonlinear_arith);
        } else {
            lemma_refine_bounds(sq, 2 * whole, (steps - 1) as nat);
            assert((2 * whole) * p == whole * (2 * p)) by (nonlinear_arith);
            assert((2 * whole + 1) * p <= (whole + 1) * (2 * p)) by (nonlinear_arith)
                requires
                    p >= 0,
            ;
        }
    }
}

/// A larger fraction gives no smaller digits.
pub proof fn lemma_refine_monotone(y1: nat, yy: nat, whole: nat, steps: nat)
    requires
        y1 <= yy,
    ensures
        refine(y1, whole, steps) <= refine(yy, whole, steps),
    decreases steps,
{
    if steps > 0 {
        let sq1 = ((y1 * y1) / 0x4000_0000_0000_0000) as nat;
        let sq2 = ((yy * yy) / 0x4000_0000_0000_0000) as nat;
        assert(y1 * y1 <= yy * yy) by (nonlinear_arith)
            requires
                y1 <= yy,
        ;
        assert(sq1 <= sq2);
        let rest = (steps - 1) as nat;
        if sq1 >= 0x8000_0000_0000_0000 {
            lemma_refine_monotone(sq1 / 2, sq2 / 2, 2 * whole + 1, rest);
        } else if sq2 >= 0x8000_0000_0000_0000 {
            lemma_refine_bounds(sq1, 2 * whole, rest);
            lemma_refine_bounds(sq2 / 2, 2 * whole + 1, rest);
        } else {
            lemma_refine_monotone(sq1, sq2, 2 * whole, rest);
        }
    }
}

/// The logarithm stays below `whole + 1`.
pub proof fn lemma_scaled_upper(y: nat, whole: nat)
    ensures
        log2_scaled(y, whole) < (whole + 1) * 0x100_0000,
    decreases whole,
{
    lemma2_to64();
    if 0 < y < 0x4000_0000_0000_0000 && whole > 0 {
        lemma_scaled_upper(2 * y, (whole - 1) as nat);
    } else {
        lemma_refine_bounds(y, whole, 24);
    }
}

proof fn lemma_scaled_monotone(y1: nat, yy: nat, whole: nat)
    requires
        0 < y1 <= yy,
    ensures
        log2_scaled(y1, whole) <= log2_scaled(yy, whole),
    decreases whole,
{
    lemma2_to64();
    if 0 < y1 < 0x4000_0000_0000_0000 && whole > 0 {
        if yy < 0x4000_0000_0000_0000 {
            lemma_scaled_monotone(2 * y1, 2 * yy, (whole - 1) as nat);
        } else {
            lemma_scaled_upper(2 * y1, (whole - 1) as nat);
            lemma_refine_bounds(yy, whole, 24);
        }
    } else {
        lemma_refine_monotone(y1, yy, whole, 24);
    }
}

/// The logarithm never decreases as its argument grows.
pub proof fn lemma_log2_monotone(x1: nat, xx: nat)
    requires
        0 < x1 <= xx,
    ensures
        log2_fixed(x1) <= log2_fixed(xx),
{
    lemma_scaled_monotone(x1, xx, 62);
}

/// How far the squared fraction may lie above its rounded value when
/// `steps` squarings are still to come.
spec fn slack(steps: nat) -> nat
    decreases steps,
{
    if steps == 0 {
        0x4000_0000_0000_0000
    } else if slack((steps - 1) as nat) < 2 {
        0
    } else {
        ((slack((steps - 1) as nat) - 2) / 5) as nat
    }
}

proof fn lemma_square_step(y: nat, p: nat, x: nat, e: nat)
    requires
        0x4000_0000_0000_0000 <= y < 0x8000_0000_0000_0000,
        p >= 1,
        y * p <= x * 0x4000_0000_0000_0000,
        x * 0x4000_0000_0000_0000 < (y + e) * p,
        1 <= e <= 0x4000_0000_0000_0000,
    ensures
        ((y * y) / 0x4000_0000_0000_0000) * (p * p) <= (x * x) * 0x4000_0000_0000_0000,
        (x * x) * 0x4000_0000_0000_0000 < ((y * y) / 0x4000_0000_0000_0000 + 5 * e + 1) * (p * p),
{
    let c: int = 0x4000_0000_0000_0000;
    let yy: int = (y * y) as int;
    let pp: int = (p * p) as int;
    let xx: int = (x * x) as int;
    let sq: int = yy / c;
    let a: int = (y * p) as int;
    let b: int = x * c;
    let d: int = ((y + e) * p) as int;
    let w: int = ((y + e) * (y + e)) as int;
    assert(sq * c <= yy < (sq + 1) * c) by (nonlinear_arith)
        requires
            sq == yy / c,
            c > 0,
    ;
    assert(pp >= 1) by (nonlinear_arith)
        requires
            pp == p * p,
            p >= 1,
    ;
    assert(a * a <= b * b) by (nonlinear_arith)
        requires
            0 <= a <= b,
    ;
    assert(a * a == yy * pp) by (nonlinear_arith)
        requires
            a == y * p,
            yy == y * y,
            pp == p * p,
    ;
    assert(b * b == (xx * c) * c) by (nonlinear_arith)
        requires
            b == x * c,
            xx == x * x,
    ;
    assert((sq * pp) * c <= yy * pp) by (nonlinear_arith)
        requires
            sq * c <= yy,
            pp >= 0,
    ;
    assert(sq * pp <= xx * c) by (nonlinear_arith)
        requires
            (sq * pp) * c <= (xx * c) * c,
            c > 0,
    ;
    assert(b * b < d * d) by (nonlinear_arith)
        requires
            0 <= b < d,
    ;
    assert(d * d == w * pp) by (nonlinear_arith)
        requires
            d == (y + e) * p,
            w == (y + e) * (y + e),
            pp == p * p,
    ;
    assert(w <= (sq + 5 * e + 1) * c) by (nonlinear_arith)
        requires
            w == (y + e) * (y + e),
            yy == y * y,
            yy < (sq + 1) * c,
            0 <= y < 2 * c,
            1 <= e <= c,
    ;
    assert(w * pp <= ((sq + 5 * e + 1) * pp) * c) by (nonlinear_arith)
        requires
            w <= (sq + 5 * e + 1) * c,
            pp >= 0,
    ;
    assert(xx * c < (sq + 5 * e + 1) * pp) by (nonlinear_arith)
        requires
            (xx * c) * c < ((sq + 5 * e + 1) * pp) * c,
            c > 0,
    ;
}

proof fn lemma_refine_bracket(y: nat, whole: nat, steps: nat, x: nat, e: nat)
    requires
        0x4000_0000_0000_0000 <= y < 0x8000_0000_0000_0000,
        y * pow2(whole) <= x * 0x4000_0000_0000_0000,
        x * 0x4000_0000_0000_0000 < (y + e) * pow2(whole),
        1 <= e <= slack(steps),
    ensures
        pow2(refine(y, whole, steps)) <= pow(x as int, pow2(steps)),
        pow(x as int, pow2(steps)) < pow2(refine(y, whole, steps) + 2),
    decreases steps,
{
    let c: int = 0x4000_0000_0000_0000;
    let p: int = pow2(whole) as int;
    lemma_pow2_pos(whole);
    lemma2_to64();
    if steps == 0 {
        lemma_pow1(x as int);
        lemma_pow2_unfold(whole + 2);
        lemma_pow2_unfold(whole + 1);
        assert(p <= x) by (nonlinear_arith)
            requires
                y * p <= x * c,
                y >= c,
                c > 0,
                p >= 0,
        ;
        assert(x < 4 * p) by (nonlinear_arith)
            requires
                x * c < (y + e) * p,
                y + e <= 4 * c,
                c > 0,
                p >= 0,
        ;
    } else {
        let rest = (steps - 1) as nat;
        let yy: int = (y * y) as int;
        let sq: int = yy / c;
        let pp: int = (p * p) as int;
        let xx: nat = x * x;
        assert(e <= c && 5 * e + 2 <= slack(rest)) by {
            lemma_slack_shrinks(rest);
        }
        lemma_square_step(y, p as nat, x, e);
        assert(c * c <= yy < (2 * c) * (2 * c)) by (nonlinear_arith)
            requires
                yy == y * y,
                c <= y < 2 * c,
        ;
        assert(c <= sq < 4 * c) by (nonlinear_arith)
            requires
                sq == yy / c,
                c * c <= yy < (2 * c) * (2 * c),
                c > 0,
        ;
        lemma_pow2_adds(whole, whole);
        assert(pow2(whole + whole) == pp);
        lemma_pow2_unfold(steps);
        assert(pow(xx as int, pow2(rest)) == pow(x as int, pow2(steps))) by {
            lemma_square_is_pow2(x as int);
            lemma_pow_multiplies(x as int, 2, pow2(rest));
        }
        if sq >= 0x8000_0000_0000_0000 {
            lemma_pow2_unfold(2 * whole + 1);
            let half: int = sq / 2;
            assert(half * (2 * pp) <= xx * c && xx * c < (half + (5 * e + 2)) * (2 * pp))
                by (nonlinear_arith)
                requires
                    half == sq / 2,
                    sq * pp <= xx * c,
                    xx * c < (sq + 5 * e + 1) * pp,
                    pp >= 0,
            ;
            lemma_refine_bracket(half as nat, 2 * whole + 1, rest, xx, 5 * e + 2);
        } else {
            assert(xx * c < (sq + (5 * e + 2)) * pp) by (nonlinear_arith)
                requires
                    xx * c < (sq + 5 * e + 1) * pp,
                    pp >= 0,
            ;
            lemma_refine_bracket(sq as nat, 2 * whole, rest, xx, 5 * e + 2);
        }
    }
}

proof fn lemma_slack_shrinks(steps: nat)
    ensures
        slack(steps + 1) <= slack(steps) <= 0x4000_0000_0000_0000,
        slack(steps + 1) >= 1 ==> 5 * slack(steps + 1) + 2 <= slack(steps),
    decreases steps,
{
    if steps > 0 {
        lemma_slack_shrinks((steps - 1) as nat);
    }
}

proof fn lemma_slack_24()
    ensures
        slack(24) >= 1,
{
    reveal_with_fuel(slack, 25);
    assert(slack(24) >= 1);
}

proof fn lemma_scaled_bracket(y: nat, whole: nat, x: nat)
    requires
        0 < y < 0x8000_0000_0000_0000,
        y * pow2(whole) == x * 0x4000_0000_0000_0000,
        whole <= 62,
    ensures
        pow2(log2_scaled(y, whole)) <= pow(x as int, pow2(24)),
        pow(x as int, pow2(24)) < pow2(log2_scaled(y, whole) + 2),
    decreases whole,
{
    let c: int = 0x4000_0000_0000_0000;
    let p: int = pow2(whole) as int;
    lemma_pow2_pos(whole);
    lemma2_to64();
    if 0 < y < 0x4000_0000_0000_0000 && whole > 0 {
        lemma_pow2_unfold(whole);
        let q: int = pow2((whole - 1) as nat) as int;
        assert((2 * y) * q == y * p) by (nonlinear_arith)
            requires
                p == 2 * q,
        ;
        lemma_scaled_bracket(2 * y, (whole - 1) as nat, x);
    } else {
        if y < 0x4000_0000_0000_0000 {
            assert(y * 1 == x * c);
            assert(x >= 1 && x * c >= c) by (nonlinear_arith)
                requires
                    y == x * c,
                    y > 0,
                    c > 0,
            ;
        }
        lemma_slack_24();
        assert(x * c < (y + 1) * p) by (nonlinear_arith)
            requires
                y * p == x * c,
                p >= 1,
        ;
        lemma_refine_bracket(y, whole, 24, x, 1);
    }
}

/// Accuracy: with `L = log2_fixed(x)`, the real logarithm of `x` in units of
/// `1 / LOG_ONE` lies in `[L, L + 2)`. Stated without real numbers:
/// `2^L <= x^LOG_ONE < 2^(L + 2)`.
pub proof fn lemma_log2_bracket(x: nat)
    requires
        0 < x < LOG_LIMIT,
    ensures
        pow2(log2_fixed(x)) <= pow(x as int, LOG_ONE as nat),
        pow(x as int, LOG_ONE as nat) < pow2(log2_fixed(x) + 2),
{
    lemma2_to64();
    lemma2_to64_rest();
    lemma_scaled_bracket(x, 62, x);
}

/// The binary logarithm of `x` in units of `1 / LOG_ONE`.
pub fn log2(x: u64) -> (log: u64)
    requires
        0 < x < LOG_LIMIT,
    ensures
        log == log2_fixed(x as nat),
        log < 63 * LOG_ONE,
{
    let mut y: u128 = x as u128;
    let mut whole: u64 = 62;
    proof {
        lemma2_to64();
    }
    while y < 0x4000_0000_0000_0000
        invariant
            0 < y < 0x8000_0000_0000_0000,
            whole <= 62,
            y >= pow2((62 - whole) as nat),
            log2_scaled(y as nat, whole as nat) == log2_fixed(x as nat),
        decreases whole,
    {
        proof {
            lemma2_to64_rest();
            lemma_pow2_unfold((63 - whole) as nat);
        }
        y = y * 2;
        whole = whole - 1;
    }
    let mut acc: u64 = whole;
    let mut j: u64 = 0;
    proof {
        lemma_scaled_upper(x as nat, 62);
    }
    while j < 24
        invariant
            j <= 24,
            0x4000_0000_0000_0000 <= y < 0x8000_0000_0000_0000,
            refine(y as nat, acc as nat, (24 - j) as nat) == log2_fixed(x as nat),
            log2_fixed(x as nat) < 63 * 0x100_0000,
        decreases 24 - j,
    {
        assert(0x4000_0000_0000_0000 * 0x4000_0000_0000_0000 <= y * y
            < 0x8000_0000_0000_0000 * 0x8000_0000_0000_0000) by (nonlinear_arith)
            requires
                0x4000_0000_0000_0000 <= y < 0x8000_0000_0000_0000,
        ;
        let sq: u128 = (y * y) / 0x4000_0000_0000_0000;
        proof {
            let rest = (24 - j - 1) as nat;
            lemma_pow2_unfold(1);
            lemma2_to64();
            if sq >= 0x8000_0000_0000_0000 {
                lemma_refine_bounds((sq / 2) as nat, (2 * acc + 1) as nat, rest);
                assert((2 * acc + 1) * pow2(rest) >= 2 * acc + 1) by (nonlinear_arith)
                    requires
                        pow2(rest) >= 1,
                ;
            } else {
                lemma_refine_bounds(sq as nat, (2 * acc) as nat, rest);
                assert((2 * acc) * pow2(rest) >= 2 * acc) by (nonlinear_arith)
                    requires
                        pow2(rest) >= 1,
                ;
            }
        }
        if sq >= 0x8000_0000_0000_0000 {
            y = sq / 2;
            acc = 2 * acc + 1;
        } else {
            y = sq;
            acc = 2 * acc;
        }
        j = j + 1;
    }
    acc
}

} // verus!
