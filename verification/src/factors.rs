//! Number theory: greatest common divisor, least common multiple (pairwise
//! and reduced over a sequence), and divisor-set enumeration, over signed
//! 32-bit integers.
use std::collections::HashSet;
use vstd::prelude::*;

use crate::arith::{
    abs_i, divides, lemma_divides_linear, lemma_divides_pos_le, lemma_divides_trans,
    lemma_trem_fundamental, lemma_trem_zero_iff_divides, tdiv, trem,
};

verus! {

broadcast use vstd::std_specs::hash::group_hash_axioms;

/// The value computed by Euclid's recursion as `euclids` runs it: swap the
/// operands when the second is larger in magnitude, otherwise recurse on the
/// divisor and the truncating remainder.  The sign of the result follows the
/// operand the recursion bottoms out on, so for negative operands the result
/// may be negative (`euclids_spec(-15, 6) == -3`); this deliberately mirrors
/// the recursion rather than the always-positive textbook convention.
pub open spec fn euclids_spec(a: int, b: int) -> int
    recommends
        a != 0,
        b != 0,
    decreases abs_i(b),
    via euclids_spec_dec
{
    if b == 0 {
        a
    } else if abs_i(b) > abs_i(a) {
        euclids_spec(b, a)
    } else if trem(a, b) == 0 {
        b
    } else {
        euclids_spec(b, trem(a, b))
    }
}

#[via_fn]
proof fn euclids_spec_dec(a: int, b: int) {
    if b != 0 && abs_i(b) <= abs_i(a) && trem(a, b) != 0 {
        lemma_trem_fundamental(a, b);
    }
}

/// The recursion never returns zero, and its result is a common divisor of
/// both operands.
pub proof fn lemma_euclids_divides(a: int, b: int)
    requires
        a != 0,
        b != 0,
    ensures
        divides(euclids_spec(a, b), a),
        divides(euclids_spec(a, b), b),
        euclids_spec(a, b) != 0,
    decreases abs_i(b),
{
    if abs_i(b) > abs_i(a) {
        lemma_euclids_divides(b, a);
    } else {
        let r = trem(a, b);
        let q = tdiv(a, b);
        lemma_trem_fundamental(a, b);
        if r == 0 {
            lemma_trem_zero_iff_divides(a, b);
            assert(b == b * 1) by (nonlinear_arith);
            assert(divides(b, b));
        } else {
            lemma_euclids_divides(b, r);
            let g = euclids_spec(b, r);
            lemma_divides_linear(g, b, r, q);
            assert(a == b * q + r);
        }
    }
}

/// On positive operands the recursion yields a positive result.
pub proof fn lemma_euclids_pos(a: int, b: int)
    requires
        a > 0,
        b > 0,
    ensures
        euclids_spec(a, b) > 0,
    decreases abs_i(b),
{
    if abs_i(b) > abs_i(a) {
        lemma_euclids_pos(b, a);
    } else {
        let r = trem(a, b);
        if r != 0 {
            lemma_trem_fundamental(a, b);
            lemma_euclids_pos(b, r);
        }
    }
}

/// Greatest common divisor by Euclid's algorithm, recursing on truncating
/// remainders.  Both operands must be nonzero (a zero divisor would be
/// reached otherwise) and above `i32::MIN` (whose magnitude overflows).
pub fn euclids(a: i32, b: i32) -> (r: i32)
    requires
        a != 0,
        b != 0,
        a != i32::MIN,
        b != i32::MIN,
    ensures
        r == euclids_spec(a as int, b as int),
    decreases abs_i(b as int),
{
    let aa: i32 = if a < 0 {
        -a
    } else {
        a
    };
    let ab: i32 = if b < 0 {
        -b
    } else {
        b
    };
    if ab > aa {
        return euclids(b, a);
    }
    proof {
        lemma_trem_fundamental(a as int, b as int);
    }
    let r: i32 = a.checked_rem(b).unwrap();
    match r == 0 {
        true => b,
        false => euclids(b, r),
    }
}

/// The least common multiple as `lcm` computes it: the product divided
/// (truncating) by the signed greatest common divisor.
pub open spec fn lcm_spec(a: int, b: int) -> int
    recommends
        a != 0,
        b != 0,
{
    tdiv(a * b, euclids_spec(a, b))
}

/// On positive operands the least common multiple is positive, no smaller
/// than either operand, and no larger than the product.
pub proof fn lemma_lcm_pos(a: int, b: int)
    requires
        a > 0,
        b > 0,
    ensures
        b <= lcm_spec(a, b) <= a * b,
        divides(a, lcm_spec(a, b)),
        divides(b, lcm_spec(a, b)),
{
    lemma_euclids_divides(a, b);
    lemma_euclids_pos(a, b);
    let g = euclids_spec(a, b);
    let k = choose|k: int| a == #[trigger] (g * k);
    assert(a * b == g * (k * b)) by (nonlinear_arith)
        requires
            a == g * k,
    ;
    assert(a * b > 0) by (nonlinear_arith)
        requires
            a > 0,
            b > 0,
    ;
    vstd::arithmetic::div_mod::lemma_div_multiples_vanish(k * b, g);
    assert(lcm_spec(a, b) == k * b);
    lemma_divides_pos_le(g, a);
    assert(k >= 1) by (nonlinear_arith)
        requires
            a == g * k,
            a > 0,
            g > 0,
    ;
    assert(b <= k * b <= a * b) by (nonlinear_arith)
        requires
            1 <= k,
            g * k <= a,
            b > 0,
            1 <= g,
            a == g * k,
    ;
    assert(k * b == b * k) by (nonlinear_arith);
    let kb = choose|m: int| b == #[trigger] (g * m);
    assert(a * b == g * (a * kb)) by (nonlinear_arith)
        requires
            b == g * kb,
    ;
    vstd::arithmetic::div_mod::lemma_div_multiples_vanish(a * kb, g);
    assert(lcm_spec(a, b) == a * kb);
}

/// Law: for all positive integers `a` and `b`, the greatest common divisor
/// times the least common multiple equals the product `a * b`.
pub proof fn lemma_gcd_lcm_product(a: int, b: int)
    requires
        a > 0,
        b > 0,
    ensures
        euclids_spec(a, b) * lcm_spec(a, b) == a * b,
{
    lemma_euclids_divides(a, b);
    lemma_euclids_pos(a, b);
    let g = euclids_spec(a, b);
    let k = choose|k: int| a == #[trigger] (g * k);
    assert(a * b == g * (k * b)) by (nonlinear_arith)
        requires
            a == g * k,
    ;
    assert(a * b > 0) by (nonlinear_arith)
        requires
            a > 0,
            b > 0,
    ;
    vstd::arithmetic::div_mod::lemma_div_multiples_vanish(k * b, g);
    assert(lcm_spec(a, b) == k * b);
}

/// Least common multiple, computed as `a * b / gcd(a, b)`.  The product and
/// the quotient must fit in an `i32`; callers are responsible for that, as
/// they are for excluding zero operands.
pub fn lcm(a: i32, b: i32) -> (r: i32)
    requires
        a != 0,
        b != 0,
        a != i32::MIN,
        b != i32::MIN,
        i32::MIN <= a as int * b as int <= i32::MAX,
        i32::MIN <= lcm_spec(a as int, b as int) <= i32::MAX,
    ensures
        r == lcm_spec(a as int, b as int),
{
    proof {
        lemma_euclids_divides(a as int, b as int);
    }
    let p: i32 = a * b;
    let g: i32 = euclids(a, b);
    p.checked_div(g).unwrap()
}

/// The subsequence of strictly positive entries, in order.
pub open spec fn positives(s: Seq<i32>) -> Seq<i32>
    decreases s.len(),
{
    if s.len() == 0 {
        Seq::empty()
    } else if s.last() > 0 {
        positives(s.drop_last()).push(s.last())
    } else {
        positives(s.drop_last())
    }
}

/// Left-reduction of a nonempty sequence through the signed gcd.
pub open spec fn gcd_fold(s: Seq<i32>) -> int
    recommends
        s.len() >= 1,
    decreases s.len(),
{
    if s.len() == 0 {
        0
    } else if s.len() == 1 {
        s[0] as int
    } else {
        euclids_spec(gcd_fold(s.drop_last()), s.last() as int)
    }
}

/// Left-reduction of a nonempty sequence through the least common multiple.
pub open spec fn lcm_fold(s: Seq<i32>) -> int
    recommends
        s.len() >= 1,
    decreases s.len(),
{
    if s.len() == 0 {
        0
    } else if s.len() == 1 {
        s[0] as int
    } else {
        lcm_spec(lcm_fold(s.drop_last()), s.last() as int)
    }
}

/// Every intermediate product formed while left-reducing through `lcm`
/// stays within `i32` range.
pub open spec fn lcm_fold_ok(s: Seq<i32>) -> bool
    decreases s.len(),
{
    if s.len() <= 1 {
        true
    } else {
        lcm_fold_ok(s.drop_last()) && i32::MIN <= lcm_fold(s.drop_last()) * (s.last() as int)
            <= i32::MAX
    }
}

proof fn lemma_positives_step(s: Seq<i32>, i: int)
    requires
        0 <= i < s.len(),
    ensures
        s[i] > 0 ==> positives(s.take(i + 1)) == positives(s.take(i)).push(s[i]),
        s[i] <= 0 ==> positives(s.take(i + 1)) == positives(s.take(i)),
{
    let t = s.take(i + 1);
    assert(t.last() == s[i]);
    assert(t.drop_last() =~= s.take(i));
}

proof fn lemma_gcd_fold_push(p: Seq<i32>, v: i32)
    requires
        p.len() >= 1,
    ensures
        gcd_fold(p.push(v)) == euclids_spec(gcd_fold(p), v as int),
{
    let q = p.push(v);
    assert(q.drop_last() =~= p);
    assert(q.last() == v);
}

proof fn lemma_lcm_fold_push(p: Seq<i32>, v: i32)
    requires
        p.len() >= 1,
    ensures
        lcm_fold(p.push(v)) == lcm_spec(lcm_fold(p), v as int),
        lcm_fold_ok(p.push(v)) ==> i32::MIN <= lcm_fold(p) * (v as int) <= i32::MAX,
{
    let q = p.push(v);
    assert(q.drop_last() =~= p);
    assert(q.last() == v);
}

proof fn lemma_lcm_fold_ok_take(s: Seq<i32>, k: int)
    requires
        lcm_fold_ok(s),
        0 <= k <= s.len(),
    ensures
        lcm_fold_ok(s.take(k)),
    decreases s.len(),
{
    if k == s.len() {
        assert(s.take(k) =~= s);
    } else if s.len() == 1 {
        assert(s.take(k) =~= Seq::<i32>::empty());
    } else {
        assert(s.drop_last().take(k) =~= s.take(k));
        lemma_lcm_fold_ok_take(s.drop_last(), k);
    }
}

proof fn lemma_positives_take_prefix(s: Seq<i32>, j: int)
    requires
        0 <= j <= s.len(),
    ensures
        positives(s.take(j)).len() <= positives(s).len(),
        positives(s).take(positives(s.take(j)).len() as int) == positives(s.take(j)),
    decreases s.len(),
{
    if j == s.len() {
        assert(s.take(j) =~= s);
        assert(positives(s).take(positives(s).len() as int) =~= positives(s));
    } else {
        lemma_positives_take_prefix(s.drop_last(), j);
        assert(s.drop_last().take(j) =~= s.take(j));
        let p = positives(s.take(j));
        let pd = positives(s.drop_last());
        if s.last() > 0 {
            assert(pd.push(s.last()).take(p.len() as int) =~= pd.take(p.len() as int));
        }
    }
}

/// Greatest common divisor of the strictly positive entries of `vals`,
/// reduced left to right through `euclids`.  At least one entry must be
/// strictly positive; the result is positive and divides every strictly
/// positive entry.
pub fn gcd_many(vals: &Vec<i32>) -> (r: i32)
    requires
        exists|j: int| 0 <= j < vals@.len() && vals@[j] > 0,
    ensures
        r as int == gcd_fold(positives(vals@)),
        r > 0,
        forall|j: int| 0 <= j < vals@.len() && vals@[j] > 0 ==> divides(
            r as int,
            vals@[j] as int,
        ),
{
    let mut acc: i32 = 0;
    let mut started: bool = false;
    let mut i: usize = 0;
    while i < vals.len()
        invariant
            0 <= i <= vals@.len(),
            started <==> exists|j: int| 0 <= j < i && vals@[j] > 0,
            started ==> positives(vals@.take(i as int)).len() >= 1,
            !started ==> positives(vals@.take(i as int)).len() == 0,
            started ==> acc as int == gcd_fold(positives(vals@.take(i as int))),
            started ==> acc > 0,
            forall|j: int| 0 <= j < i && vals@[j] > 0 ==> divides(acc as int, vals@[j] as int),
        decreases vals@.len() - i,
    {
        let v: i32 = vals[i];
        proof {
            lemma_positives_step(vals@, i as int);
        }
        if v > 0 {
            if !started {
                acc = v;
                started = true;
                proof {
                    crate::arith::lemma_divides_self(v as int);
                }
            } else {
                proof {
                    lemma_gcd_fold_push(positives(vals@.take(i as int)), v);
                    lemma_euclids_divides(acc as int, v as int);
                    lemma_euclids_pos(acc as int, v as int);
                    assert forall|j: int| 0 <= j < i && vals@[j] > 0 implies divides(
                        euclids_spec(acc as int, v as int),
                        vals@[j] as int,
                    ) by {
                        lemma_divides_trans(
                            euclids_spec(acc as int, v as int),
                            acc as int,
                            vals@[j] as int,
                        );
                    }
                }
                acc = euclids(acc, v);
            }
        }
        i += 1;
    }
    proof {
        assert(vals@.take(vals@.len() as int) =~= vals@);
    }
    acc
}

/// Least common multiple of the strictly positive entries of `vals`,
/// reduced left to right through `lcm`.  At least one entry must be
/// strictly positive, and every intermediate product must fit in an `i32`;
/// the result is positive and every strictly positive entry divides it.
pub fn lcm_many(vals: &Vec<i32>) -> (r: i32)
    requires
        exists|j: int| 0 <= j < vals@.len() && vals@[j] > 0,
        lcm_fold_ok(positives(vals@)),
    ensures
        r as int == lcm_fold(positives(vals@)),
        r > 0,
        forall|j: int| 0 <= j < vals@.len() && vals@[j] > 0 ==> divides(
            vals@[j] as int,
            r as int,
        ),
{
    let mut acc: i32 = 0;
    let mut started: bool = false;
    let mut i: usize = 0;
    while i < vals.len()
        invariant
            0 <= i <= vals@.len(),
            lcm_fold_ok(positives(vals@)),
            exists|j: int| 0 <= j < vals@.len() && vals@[j] > 0,
            started <==> exists|j: int| 0 <= j < i && vals@[j] > 0,
            started ==> positives(vals@.take(i as int)).len() >= 1,
            !started ==> positives(vals@.take(i as int)).len() == 0,
            started ==> acc as int == lcm_fold(positives(vals@.take(i as int))),
            started ==> acc > 0,
            forall|j: int| 0 <= j < i && vals@[j] > 0 ==> divides(vals@[j] as int, acc as int),
        decreases vals@.len() - i,
    {
        let v: i32 = vals[i];
        proof {
            lemma_positives_step(vals@, i as int);
        }
        if v > 0 {
            if !started {
                acc = v;
                started = true;
                proof {
                    crate::arith::lemma_divides_self(v as int);
                }
            } else {
                proof {
                    let p = positives(vals@.take(i as int));
                    let pv = positives(vals@.take(i as int + 1));
                    assert(pv == p.push(v));
                    lemma_positives_take_prefix(vals@, i as int + 1);
                    lemma_lcm_fold_ok_take(positives(vals@), pv.len() as int);
                    assert(lcm_fold_ok(pv));
                    lemma_lcm_fold_push(p, v);
                    lemma_lcm_pos(acc as int, v as int);
                    assert forall|j: int| 0 <= j < i && vals@[j] > 0 implies divides(
                        vals@[j] as int,
                        lcm_spec(acc as int, v as int),
                    ) by {
                        lemma_divides_trans(
                            vals@[j] as int,
                            acc as int,
                            lcm_spec(acc as int, v as int),
                        );
                    }
                }
                acc = lcm(acc, v);
            }
        }
        i += 1;
    }
    proof {
        assert(vals@.take(vals@.len() as int) =~= vals@);
    }
    acc
}

/// `d` is a positive divisor of the non-negative integer `m`.
pub open spec fn is_divisor(m: int, d: int) -> bool {
    1 <= d <= m && m % d == 0
}

/// A divisor `d` of `m` comes with a partner `m / d`, itself a divisor,
/// whose partner is `d` again.
proof fn lemma_div_pair(m: int, d: int)
    requires
        1 <= d <= m,
        m % d == 0,
    ensures
        1 <= m / d <= m,
        m % (m / d) == 0,
        m / (m / d) == d,
{
    vstd::arithmetic::div_mod::lemma_fundamental_div_mod(m, d);
    let q = m / d;
    assert(m == d * q);
    assert(q >= 1) by (nonlinear_arith)
        requires
            m == d * q,
            m >= 1,
            d >= 1,
    ;
    assert(q <= m) by (nonlinear_arith)
        requires
            m == d * q,
            d >= 1,
            q >= 1,
    ;
    vstd::arithmetic::div_mod::lemma_mod_multiples_basic(d, q);
    assert(m % q == 0);
    vstd::arithmetic::div_mod::lemma_div_multiples_vanish(d, q);
    assert(q * d == d * q) by (nonlinear_arith);
}

/// Law: for a nonzero `n`, every element of the divisor set of `n` evenly
/// divides `|n|`, and the set is closed under the map `d -> |n| / d`.
pub proof fn lemma_factors_closed(n: int, d: int)
    requires
        n != 0,
        is_divisor(abs_i(n), d),
    ensures
        abs_i(n) % d == 0,
        is_divisor(abs_i(n), abs_i(n) / d),
        abs_i(n) / (abs_i(n) / d) == d,
{
    lemma_div_pair(abs_i(n), d);
}

/// The set of positive divisors of `|n|`: candidates `i` are scanned from 1
/// up to the integer square root of `|n|`, and each hit contributes both `i`
/// and `|n| / i`.  For `n == 0` the scan is empty, so the set is empty.
pub fn factors(n: i32) -> (r: HashSet<i32>)
    requires
        n != i32::MIN,
    ensures
        forall|d: i32| r@.contains(d) <==> is_divisor(abs_i(n as int), d as int),
{
    let m: i32 = if n < 0 {
        -n
    } else {
        n
    };
    let mut fact: HashSet<i32> = HashSet::new();
    proof {
        assert forall|d: i32| !(is_divisor(m as int, d as int) && ((d as int) < 1 || (m as int) / (
        d as int) < 1)) by {
            if is_divisor(m as int, d as int) {
                lemma_div_pair(m as int, d as int);
            }
        }
    }
    let mut i: i32 = 1;
    while i <= m / i
        invariant
            1 <= i <= 46341,
            m == abs_i(n as int),
            forall|d: i32| fact@.contains(d) <==> (is_divisor(m as int, d as int) && ((d as int)
                < i || (m as int) / (d as int) < i)),
        decreases m as int + 1 - i,
    {
        proof {
            vstd::arithmetic::div_mod::lemma_fundamental_div_mod(m as int, i as int);
            vstd::arithmetic::div_mod::lemma_mod_division_less_than_divisor(m as int, i as int);
            assert((i as int) * (i as int) <= m as int) by (nonlinear_arith)
                requires
                    1 <= i,
                    i <= (m as int) / (i as int),
                    m as int == (i as int) * ((m as int) / (i as int)) + (m as int) % (i as int),
                    (m as int) % (i as int) >= 0,
            ;
            assert((i as int) <= (m as int)) by (nonlinear_arith)
                requires
                    1 <= i,
                    (i as int) * (i as int) <= m as int,
            ;
            assert(i <= 46340) by (nonlinear_arith)
                requires
                    1 <= i,
                    (i as int) * (i as int) <= m as int,
                    m <= 0x7fff_ffff,
            ;
        }
        if m % i == 0 {
            proof {
                lemma_div_pair(m as int, i as int);
            }
            fact.insert(i);
            let q: i32 = m / i;
            fact.insert(q);
        }
        proof {
            assert forall|d: i32| (is_divisor(m as int, d as int) && ((d as int) < i + 1 || (
            m as int) / (d as int) < i + 1)) implies fact@.contains(d) by {
                if (d as int) >= i && (m as int) / (d as int) >= i {
                    lemma_div_pair(m as int, d as int);
                    assert(d == i || (m as int) / (d as int) == i);
                    assert(m as int % (i as int) == 0);
                }
            }
        }
        i = i + 1;
    }
    proof {
        vstd::arithmetic::div_mod::lemma_fundamental_div_mod(m as int, i as int);
        vstd::arithmetic::div_mod::lemma_mod_division_less_than_divisor(m as int, i as int);
        assert((i as int) * (i as int) > m as int) by (nonlinear_arith)
            requires
                1 <= i,
                i > (m as int) / (i as int),
                m as int == (i as int) * ((m as int) / (i as int)) + (m as int) % (i as int),
                (m as int) % (i as int) < i,
        ;
        assert forall|d: i32| is_divisor(m as int, d as int) implies ((d as int) < i || (m as int)
            / (d as int) < i) by {
            if (d as int) >= i {
                vstd::arithmetic::div_mod::lemma_fundamental_div_mod(m as int, d as int);
                let qd = (m as int) / (d as int);
                vstd::arithmetic::div_mod::lemma_div_pos_is_pos(m as int, d as int);
                assert(qd < i) by (nonlinear_arith)
                    requires
                        m as int == (d as int) * qd,
                        (d as int) >= i,
                        1 <= i,
                        (i as int) * (i as int) > m as int,
                        m >= 1,
                        qd >= 0,
                ;
            }
        }
    }
    fact
}

} // verus!
