//! Mathematical groundwork: absolute value, the truncating division and
//! remainder of machine integers, and divisibility.
use vstd::prelude::*;

verus! {

/// Absolute value of a mathematical integer.
pub open spec fn abs_i(a: int) -> int {
    if a < 0 {
        -a
    } else {
        a
    }
}

/// Rust's truncating remainder (its sign follows the dividend), stated over
/// the Euclidean `%` of spec arithmetic.
pub open spec fn trem(x: int, d: int) -> int
    recommends
        d != 0,
{
    if x == 0 {
        0
    } else if x > 0 && d > 0 {
        x % d
    } else if x < 0 && d < 0 {
        ((x * -1) % (d * -1)) * -1
    } else if x < 0 {
        ((x * -1) % d) * -1
    } else {
        x % (d * -1)
    }
}

/// Rust's truncating division (rounds toward zero), stated over the
/// Euclidean `/` of spec arithmetic.
pub open spec fn tdiv(x: int, d: int) -> int
    recommends
        d != 0,
{
    if x == 0 {
        0
    } else if x > 0 && d > 0 {
        x / d
    } else if x < 0 && d < 0 {
        (x * -1) / (d * -1)
    } else if x < 0 {
        ((x * -1) / d) * -1
    } else {
        (x / (d * -1)) * -1
    }
}

/// `d` evenly divides `x`.
pub open spec fn divides(d: int, x: int) -> bool {
    exists|k: int| x == #[trigger] (d * k)
}

/// Every integer divides itself.
pub proof fn lemma_divides_self(x: int)
    ensures
        divides(x, x),
{
    assert(x == x * 1) by (nonlinear_arith);
}

/// The division identity for the truncating operations: quotient times
/// divisor plus remainder gives back the dividend, and the remainder is
/// strictly smaller in magnitude than the divisor.
pub proof fn lemma_trem_fundamental(x: int, d: int)
    requires
        d != 0,
    ensures
        x == d * tdiv(x, d) + trem(x, d),
        abs_i(trem(x, d)) < abs_i(d),
        x >= 0 ==> 0 <= trem(x, d),
        x <= 0 ==> trem(x, d) <= 0,
{
    let xp = abs_i(x);
    let dp = abs_i(d);
    vstd::arithmetic::div_mod::lemma_fundamental_div_mod(xp, dp);
    vstd::arithmetic::div_mod::lemma_mod_division_less_than_divisor(xp, dp);
    let q = xp / dp;
    let r = xp % dp;
    assert(xp == dp * q + r);
    if x == 0 {
        assert(xp == 0 && q == 0 && r == 0);
    } else if x > 0 && d > 0 {
        assert(x == d * tdiv(x, d) + trem(x, d));
    } else if x < 0 && d < 0 {
        assert(tdiv(x, d) == q && trem(x, d) == -r);
        assert(-xp == dp * q * -1 - r) by (nonlinear_arith)
            requires
                xp == dp * q + r,
        ;
        assert(d * q == dp * q * -1) by (nonlinear_arith)
            requires
                d == -dp,
        ;
    } else if x < 0 {
        assert(tdiv(x, d) == -q && trem(x, d) == -r);
        assert(d * (q * -1) == dp * q * -1) by (nonlinear_arith)
            requires
                d == dp,
        ;
        assert(-xp == dp * q * -1 - r) by (nonlinear_arith)
            requires
                xp == dp * q + r,
        ;
    } else {
        assert(tdiv(x, d) == -q && trem(x, d) == r);
        assert(d * (q * -1) == dp * q) by (nonlinear_arith)
            requires
                d == -dp,
        ;
    }
}

/// A remainder of zero is the same thing as exact divisibility.
pub proof fn lemma_trem_zero_iff_divides(x: int, d: int)
    requires
        d != 0,
    ensures
        trem(x, d) == 0 <==> divides(d, x),
        divides(d, x) ==> x == d * tdiv(x, d),
{
    lemma_trem_fundamental(x, d);
    if trem(x, d) == 0 {
        assert(x == d * tdiv(x, d));
    }
    if divides(d, x) {
        let k = choose|k: int| x == #[trigger] (d * k);
        let q = tdiv(x, d);
        let r = trem(x, d);
        assert(r == d * (k - q)) by (nonlinear_arith)
            requires
                x == d * k,
                x == d * q + r,
        ;
        assert(abs_i(d * (k - q)) < abs_i(d) ==> d * (k - q) == 0) by (nonlinear_arith);
    }
}

/// Divisibility is transitive.
pub proof fn lemma_divides_trans(a: int, b: int, c: int)
    requires
        divides(a, b),
        divides(b, c),
    ensures
        divides(a, c),
{
    let k1 = choose|k: int| b == #[trigger] (a * k);
    let k2 = choose|k: int| c == #[trigger] (b * k);
    assert(c == a * (k1 * k2)) by (nonlinear_arith)
        requires
            b == a * k1,
            c == b * k2,
    ;
}

/// A common divisor of `b` and `r` divides any combination `b * q + r`.
pub proof fn lemma_divides_linear(g: int, b: int, r: int, q: int)
    requires
        divides(g, b),
        divides(g, r),
    ensures
        divides(g, b * q + r),
{
    let kb = choose|k: int| b == #[trigger] (g * k);
    let kr = choose|k: int| r == #[trigger] (g * k);
    assert(b * q + r == g * (kb * q + kr)) by (nonlinear_arith)
        requires
            b == g * kb,
            r == g * kr,
    ;
}

/// Dividing by a positive divisor never grows the magnitude, so the
/// truncating quotient of an `i32` value stays within `i32` range.
pub proof fn lemma_tdiv_shrinks(c: int, s: int)
    requires
        s >= 1,
    ensures
        c >= 0 ==> 0 <= tdiv(c, s) <= c,
        c < 0 ==> c <= tdiv(c, s) <= 0,
{
    if c > 0 {
        vstd::arithmetic::div_mod::lemma_div_pos_is_pos(c, s);
        vstd::arithmetic::div_mod::lemma_div_nonincreasing(c, s);
    } else if c < 0 {
        vstd::arithmetic::div_mod::lemma_div_pos_is_pos(-c, s);
        vstd::arithmetic::div_mod::lemma_div_nonincreasing(-c, s);
    }
}

/// A positive divisor of a positive integer is no larger than it.
pub proof fn lemma_divides_pos_le(d: int, x: int)
    requires
        divides(d, x),
        d > 0,
        x > 0,
    ensures
        d <= x,
{
    let k = choose|k: int| x == #[trigger] (d * k);
    assert(d * k > 0 && d > 0 ==> k >= 1 && d * k >= d) by (nonlinear_arith);
}

} // verus!
