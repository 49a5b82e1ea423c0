//! The partial extended Euclidean algorithm.

use vstd::prelude::*;
use vstd::arithmetic::power2::pow2;
use vstd::arithmetic::power2::lemma_pow2_pos;
use vstd::arithmetic::power2::lemma_pow2_adds;
use vstd::arithmetic::power2::lemma_pow2_strictly_increases;
use vstd::arithmetic::power2::lemma2_to64;
use vstd::arithmetic::div_mod::lemma_div_pos_is_pos;
use vstd::arithmetic::div_mod::lemma_div_nonincreasing;
use vstd::arithmetic::div_mod::lemma_fundamental_div_mod;
use vstd::arithmetic::div_mod::lemma_mod_division_less_than_divisor;
use vstd::arithmetic::div_mod::lemma_multiply_divide_lt;
use vstd::arithmetic::mul::lemma_mul_is_commutative;
use num_bigint::BigInt;
use crate::bigops::big_value;
use crate::bigops::big_from_i64;
use crate::bigops::big_clone;
use crate::bigops::big_add;
use crate::bigops::big_sub;
use crate::bigops::big_mul;
use crate::bigops::big_neg;
use crate::bigops::big_is_zero;
use crate::bigops::big_is_negative;
use crate::bigops::big_lt;
use crate::bigops::big_bits;
use crate::bigops::big_shr;
use crate::bigops::big_to_i64;
use crate::bigops::big_div_floor;

verus! {

/// Division of `a` by `d > 0` rounded toward zero: floor for a non-negative
/// dividend, ceiling for a negative one.
pub open spec fn div_trunc(a: int, d: int) -> int {
    if a >= 0 {
        a / d
    } else {
        -((-a) / d)
    }
}

/// Right-shift of a signed arbitrary-precision integer by `t` bits, rounded
/// toward zero.
pub fn shift_trunc(x: &BigInt, t: u64) -> (r: BigInt)
    ensures
        big_value(r) == div_trunc(big_value(*x), pow2(t as nat) as int),
{
    proof {
        lemma_pow2_pos(t as nat);
    }
    if big_is_negative(x) {
        let m = big_neg(x);
        let s = big_shr(&m, t);
        big_neg(&s)
    } else {
        big_shr(x, t)
    }
}

/// The pair of successive Euclidean remainders at which a run of exact
/// Euclidean steps starting from `(r2, r1)` first stops: the first pair of
/// the chain whose smaller member is zero (or negative) or at most `b`.
pub open spec fn remainder_chain(r2: int, r1: int, b: int) -> (int, int)
    decreases r1,
    via remainder_chain_decreases
{
    if r1 <= 0 || r1 <= b {
        (r2, r1)
    } else {
        remainder_chain(r1, r2 % r1, b)
    }
}

#[via_fn]
proof fn remainder_chain_decreases(r2: int, r1: int, b: int) {
    if !(r1 <= 0 || r1 <= b) {
        lemma_mod_division_less_than_divisor(r2, r1);
    }
}

/// `e` divides `x`.
pub open spec fn divides(e: int, x: int) -> bool {
    exists|k: int| x == #[trigger] (e * k)
}

/// One Euclidean step `(y, x) -> (x, y - q*x)` keeps the pair's set of
/// common divisors, hence its greatest common divisor.
proof fn lemma_euclid_common_divisors(y: int, x: int, q: int, nr1: int)
    requires
        nr1 == y - q * x,
    ensures
        forall|e: int|
            (divides(e, y) && divides(e, x)) <==> (divides(e, x) && divides(e, nr1)),
{
    assert forall|e: int|
        (divides(e, y) && divides(e, x)) implies (divides(e, x) && divides(e, nr1)) by {
        let k1 = choose|k: int| y == #[trigger] (e * k);
        let k2 = choose|k: int| x == #[trigger] (e * k);
        assert(nr1 == e * (k1 - q * k2)) by (nonlinear_arith)
            requires
                y == e * k1,
                x == e * k2,
                nr1 == y - q * x,
        ;
    }
    assert forall|e: int|
        (divides(e, x) && divides(e, nr1)) implies (divides(e, y) && divides(e, x)) by {
        let k2 = choose|k: int| x == #[trigger] (e * k);
        let k3 = choose|k: int| nr1 == #[trigger] (e * k);
        assert(y == e * (q * k2 + k3)) by (nonlinear_arith)
            requires
                x == e * k2,
                nr1 == e * k3,
                nr1 == y - q * x,
        ;
    }
}

/// Applying an integer matrix of determinant `1` or `-1` to a pair keeps the
/// pair's set of common divisors: both new members are integer combinations
/// of the old ones, and through the adjugate matrix both old members are
/// integer combinations of the new ones.
proof fn lemma_matrix_common_divisors(
    a1: int,
    a2: int,
    b1: int,
    b2: int,
    y: int,
    x: int,
    c: int,
    d: int,
)
    requires
        c == y * b2 + x * a2,
        d == x * a1 + y * b1,
        a1 * b2 - a2 * b1 == 1 || a1 * b2 - a2 * b1 == -1,
    ensures
        forall|e: int| (divides(e, y) && divides(e, x)) <==> (divides(e, c) && divides(e, d)),
{
    let dd = a1 * b2 - a2 * b1;
    assert(dd * dd == 1) by (nonlinear_arith)
        requires
            dd == 1 || dd == -1,
    ;
    assert(a1 * c - a2 * d == dd * y) by (nonlinear_arith)
        requires
            c == y * b2 + x * a2,
            d == x * a1 + y * b1,
            dd == a1 * b2 - a2 * b1,
    ;
    assert(b2 * d - b1 * c == dd * x) by (nonlinear_arith)
        requires
            c == y * b2 + x * a2,
            d == x * a1 + y * b1,
            dd == a1 * b2 - a2 * b1,
    ;
    assert forall|e: int|
        (divides(e, y) && divides(e, x)) implies (divides(e, c) && divides(e, d)) by {
        let k1 = choose|k: int| y == #[trigger] (e * k);
        let k2 = choose|k: int| x == #[trigger] (e * k);
        assert(c == e * (k1 * b2 + k2 * a2)) by (nonlinear_arith)
            requires
                y == e * k1,
                x == e * k2,
                c == y * b2 + x * a2,
        ;
        assert(d == e * (k2 * a1 + k1 * b1)) by (nonlinear_arith)
            requires
                y == e * k1,
                x == e * k2,
                d == x * a1 + y * b1,
        ;
    }
    assert forall|e: int|
        (divides(e, c) && divides(e, d)) implies (divides(e, y) && divides(e, x)) by {
        let k3 = choose|k: int| c == #[trigger] (e * k);
        let k4 = choose|k: int| d == #[trigger] (e * k);
        assert(y == e * (dd * (a1 * k3 - a2 * k4))) by (nonlinear_arith)
            requires
                c == e * k3,
                d == e * k4,
                a1 * c - a2 * d == dd * y,
                dd * dd == 1,
        ;
        assert(x == e * (dd * (b2 * k4 - b1 * k3))) by (nonlinear_arith)
            requires
                c == e * k3,
                d == e * k4,
                b2 * d - b1 * c == dd * x,
                dd * dd == 1,
        ;
    }
}

/// Negating either member of a pair (or both) keeps the pair's set of
/// common divisors.
proof fn lemma_negate_common_divisors(c: int, d: int, nc: int, nd: int)
    requires
        nc == c || nc == -c,
        nd == d || nd == -d,
    ensures
        forall|e: int| (divides(e, c) && divides(e, d)) <==> (divides(e, nc) && divides(e, nd)),
{
    assert forall|e: int| divides(e, c) implies divides(e, nc) by {
        let k = choose|k: int| c == #[trigger] (e * k);
        assert(-c == e * (-k)) by (nonlinear_arith)
            requires
                c == e * k,
        ;
    }
    assert forall|e: int| divides(e, nc) implies divides(e, c) by {
        let k = choose|k: int| nc == #[trigger] (e * k);
        assert(-nc == e * (-k)) by (nonlinear_arith)
            requires
                nc == e * k,
        ;
    }
    assert forall|e: int| divides(e, d) implies divides(e, nd) by {
        let k = choose|k: int| d == #[trigger] (e * k);
        assert(-d == e * (-k)) by (nonlinear_arith)
            requires
                d == e * k,
        ;
    }
    assert forall|e: int| divides(e, nd) implies divides(e, d) by {
        let k = choose|k: int| nd == #[trigger] (e * k);
        assert(-nd == e * (-k)) by (nonlinear_arith)
            requires
                nd == e * k,
        ;
    }
}

/// The magnitude of an integer.
spec fn mag(x: int) -> int {
    if x < 0 {
        -x
    } else {
        x
    }
}

/// The machine-word Euclidean sub-loop (the accelerator).
///
/// Starting from the identity matrix, performs Euclidean steps on the
/// truncated remainders `rr2`, `rr1` entirely in `i64` arithmetic, stopping
/// at the truncated bound `bb` or when the parity-alternating certification
/// inequality fires. `index` counts the certified steps; `index == 0` means
/// no acceleration was possible and the matrix must be discarded. Whatever
/// path was taken, the accumulated matrix has determinant `1` or `-1`, so
/// applying it to a remainder/cofactor state preserves the extended-GCD
/// identity up to sign.
fn accelerate(rr2_in: i64, rr1_in: i64, bb: i64) -> (res: (i64, i64, i64, i64, usize))
    requires
        0 <= rr2_in < 0x8000_0000,
        0 <= rr1_in < 0x8000_0000,
        0 <= bb,
    ensures
        ({
            let (a1, a2, b1, b2, index) = res;
            a1 * b2 - a2 * b1 == 1 || a1 * b2 - a2 * b1 == -1
        }),
{
    let mut rr2 = rr2_in;
    let mut rr1 = rr1_in;
    let mut a1: i64 = 1;
    let mut a2: i64 = 0;
    let mut b1: i64 = 0;
    let mut b2: i64 = 1;
    let mut index: usize = 0;

    proof {
        assert(mag(a1 as int) * (rr2 as int) + mag(a2 as int) * (rr1 as int) == rr2_in as int)
            by (nonlinear_arith)
            requires
                mag(a1 as int) == 1,
                mag(a2 as int) == 0,
                rr2 == rr2_in,
        ;
        assert(mag(b1 as int) * (rr2 as int) + mag(b2 as int) * (rr1 as int) == rr1_in as int)
            by (nonlinear_arith)
            requires
                mag(b1 as int) == 0,
                mag(b2 as int) == 1,
                rr1 == rr1_in,
        ;
    }

    while rr1 != 0 && rr1 > bb
        invariant
            0 <= rr2_in < 0x8000_0000,
            0 <= rr1_in < 0x8000_0000,
            0 <= bb,
            0 <= rr1 < 0x8000_0000,
            0 <= rr2 < 0x8000_0000,
            mag(a1 as int) * rr2 + mag(a2 as int) * rr1 == rr2_in,
            mag(b1 as int) * rr2 + mag(b2 as int) * rr1 == rr1_in,
            mag(a1 as int) <= rr2_in + 1,
            mag(a2 as int) <= rr2_in + 1,
            mag(b1 as int) <= rr1_in + 1,
            mag(b2 as int) <= rr1_in + 1,
            (a1 >= 0 && a2 <= 0 && b1 <= 0 && b2 >= 0 && a1 * b2 - a2 * b1 == 1) || (a1 <= 0
                && a2 >= 0 && b1 >= 0 && b2 <= 0 && a1 * b2 - a2 * b1 == -1),
            index <= rr1_in - rr1,
        ensures
            a1 * b2 - a2 * b1 == 1 || a1 * b2 - a2 * b1 == -1,
        decreases rr1,
    {
        let ghost orr2: int = rr2 as int;
        let ghost orr1: int = rr1 as int;
        let ghost oa1: int = a1 as int;
        let ghost oa2: int = a2 as int;
        let ghost ob1: int = b1 as int;
        let ghost ob2: int = b2 as int;

        proof {
            lemma_div_pos_is_pos(orr2, orr1);
            lemma_div_nonincreasing(orr2, orr1);
            lemma_fundamental_div_mod(orr2, orr1);
            lemma_mod_division_less_than_divisor(orr2, orr1);
            lemma_mul_is_commutative(orr1, orr2 / orr1);
        }
        let q: i64 = rr2 / rr1;
        let ghost qi: int = orr2 / orr1;
        assert(q == qi);
        assert(0 <= qi * orr1 <= orr2) by (nonlinear_arith)
            requires
                orr2 == orr1 * qi + orr2 % orr1,
                0 <= orr2 % orr1,
                orr1 >= 1,
                qi >= 0,
        ;
        let t_r: i64 = rr2 - q * rr1;
        assert(t_r == orr2 % orr1);
        assert(-0x4000_0000_0000_0000 <= q * a1 <= 0x4000_0000_0000_0000) by (nonlinear_arith)
            requires
                0 <= q < 0x8000_0000,
                -0x8000_0000 <= a1 <= 0x8000_0000,
        ;
        let t_a: i64 = a2 - q * a1;
        assert(-0x4000_0000_0000_0000 <= q * b1 <= 0x4000_0000_0000_0000) by (nonlinear_arith)
            requires
                0 <= q < 0x8000_0000,
                -0x8000_0000 <= b1 <= 0x8000_0000,
        ;
        let t_b: i64 = b2 - q * b1;

        rr2 = rr1;
        rr1 = t_r;
        a2 = a1;
        a1 = t_a;
        b2 = b1;
        b1 = t_b;

        proof {
            assert((oa2 - qi * oa1) * ob1 - oa1 * (ob2 - qi * ob1) == -(oa1 * ob2 - oa2 * ob1))
                by (nonlinear_arith);
            if oa1 >= 0 && oa2 <= 0 && ob1 <= 0 && ob2 >= 0 && oa1 * ob2 - oa2 * ob1 == 1 {
                assert(qi * oa1 >= 0) by (nonlinear_arith)
                    requires
                        qi >= 0,
                        oa1 >= 0,
                ;
                assert(qi * ob1 <= 0) by (nonlinear_arith)
                    requires
                        qi >= 0,
                        ob1 <= 0,
                ;
                assert((qi * oa1 - oa2) * orr1 + oa1 * (orr2 - qi * orr1) == oa1 * orr2 + (-oa2)
                    * orr1) by (nonlinear_arith);
                assert((ob2 - qi * ob1) * orr1 + (-ob1) * (orr2 - qi * orr1) == (-ob1) * orr2 + ob2
                    * orr1) by (nonlinear_arith);
            } else {
                assert(qi * oa1 <= 0) by (nonlinear_arith)
                    requires
                        qi >= 0,
                        oa1 <= 0,
                ;
                assert(qi * ob1 >= 0) by (nonlinear_arith)
                    requires
                        qi >= 0,
                        ob1 >= 0,
                ;
                assert((oa2 - qi * oa1) * orr1 + (-oa1) * (orr2 - qi * orr1) == (-oa1) * orr2 + oa2
                    * orr1) by (nonlinear_arith);
                assert((qi * ob1 - ob2) * orr1 + ob1 * (orr2 - qi * orr1) == ob1 * orr2 + (-ob2)
                    * orr1) by (nonlinear_arith);
            }
            assert(mag(a1 as int) * rr2 + mag(a2 as int) * rr1 == rr2_in);
            assert(mag(b1 as int) * rr2 + mag(b2 as int) * rr1 == rr1_in);
            assert(mag(a1 as int) <= rr2_in) by (nonlinear_arith)
                requires
                    mag(a1 as int) * (rr2 as int) + mag(a2 as int) * (rr1 as int) == rr2_in as int,
                    rr2 as int >= 1,
                    rr1 as int >= 0,
                    mag(a1 as int) >= 0,
                    mag(a2 as int) >= 0,
            ;
            assert(mag(b1 as int) <= rr1_in) by (nonlinear_arith)
                requires
                    mag(b1 as int) * (rr2 as int) + mag(b2 as int) * (rr1 as int) == rr1_in as int,
                    rr2 as int >= 1,
                    rr1 as int >= 0,
                    mag(b1 as int) >= 0,
                    mag(b2 as int) >= 0,
            ;
        }

        if index % 2 != 0 {
            if rr1 < -b1 || rr2 - rr1 < a1 - a2 {
                break ;
            }
        } else {
            if rr1 < -a1 || rr2 - rr1 < b1 - b2 {
                break ;
            }
        }
        index = index + 1;
    }
    (a1, a2, b1, b2, index)
}

/// One exact full-precision Euclidean step with cofactor bookkeeping:
/// `(r2, r1) <- (r1, r2 mod r1)` and `(co2, co1) <- (co1, co2 - q*co1)`
/// for the floor quotient `q` of `r2` by `r1`.
fn euclid_step(r2: &BigInt, r1: &BigInt, co2: &BigInt, co1: &BigInt) -> (res: (
    BigInt,
    BigInt,
    BigInt,
    BigInt,
))
    requires
        big_value(*r1) > 0,
    ensures
        ({
            let (nr2, nr1, nc2, nc1) = res;
            &&& big_value(nr2) == big_value(*r1)
            &&& big_value(nr1) == big_value(*r2) - (big_value(*r2) / big_value(*r1)) * big_value(
                *r1,
            )
            &&& big_value(nr1) == big_value(*r2) % big_value(*r1)
            &&& 0 <= big_value(nr1) < big_value(*r1)
            &&& big_value(nc2) == big_value(*co1)
            &&& big_value(nc1) == big_value(*co2) - (big_value(*r2) / big_value(*r1)) * big_value(
                *co1,
            )
        }),
{
    let q = big_div_floor(r2, r1);
    let p = big_mul(&q, r1);
    let nr1 = big_sub(r2, &p);
    let u = big_mul(&q, co1);
    let nc1 = big_sub(co2, &u);
    proof {
        lemma_fundamental_div_mod(big_value(*r2), big_value(*r1));
        lemma_mod_division_less_than_divisor(big_value(*r2), big_value(*r1));
        lemma_mul_is_commutative(big_value(*r1), big_value(*r2) / big_value(*r1));
    }
    (big_clone(r1), nr1, big_clone(co1), nc1)
}

/// One Euclidean step rotates the remainder and cofactor pairs in lockstep,
/// which negates the value of the identity `co2*r1 - co1*r2`; in particular
/// its magnitude is preserved.
proof fn lemma_step_identity(
    or2: int,
    or1: int,
    oc2: int,
    oc1: int,
    nr2: int,
    nr1: int,
    nc2: int,
    nc1: int,
    q: int,
    g: int,
)
    requires
        oc2 * or1 - oc1 * or2 == g || oc2 * or1 - oc1 * or2 == -g,
        nr2 == or1,
        nr1 == or2 - q * or1,
        nc2 == oc1,
        nc1 == oc2 - q * oc1,
    ensures
        nc2 * nr1 - nc1 * nr2 == g || nc2 * nr1 - nc1 * nr2 == -g,
{
    assert(oc1 * (or2 - q * or1) - (oc2 - q * oc1) * or1 == -(oc2 * or1 - oc1 * or2))
        by (nonlinear_arith);
}

/// Applying a matrix of determinant `1` or `-1` to the remainder pair and to
/// the cofactor pair in lockstep preserves the identity `co2*r1 - co1*r2`
/// up to sign.
proof fn lemma_matrix_identity(
    a1: int,
    a2: int,
    b1: int,
    b2: int,
    r2: int,
    r1: int,
    c2: int,
    c1: int,
    g: int,
)
    requires
        c2 * r1 - c1 * r2 == g || c2 * r1 - c1 * r2 == -g,
        a1 * b2 - a2 * b1 == 1 || a1 * b2 - a2 * b1 == -1,
    ensures
        ({
            let nr2 = r2 * b2 + r1 * a2;
            let nr1 = r1 * a1 + r2 * b1;
            let nc2 = c2 * b2 + c1 * a2;
            let nc1 = c1 * a1 + c2 * b1;
            nc2 * nr1 - nc1 * nr2 == g || nc2 * nr1 - nc1 * nr2 == -g
        }),
{
    // Expand both products into monomials, normalize each monomial, and
    // factor the surviving four back into determinant times identity.
    assert((c2 * b2 + c1 * a2) * (r1 * a1 + r2 * b1) == (c2 * b2) * (r1 * a1) + (c2 * b2) * (r2
        * b1) + (c1 * a2) * (r1 * a1) + (c1 * a2) * (r2 * b1)) by (nonlinear_arith);
    assert((c1 * a1 + c2 * b1) * (r2 * b2 + r1 * a2) == (c1 * a1) * (r2 * b2) + (c1 * a1) * (r1
        * a2) + (c2 * b1) * (r2 * b2) + (c2 * b1) * (r1 * a2)) by (nonlinear_arith);
    assert((c2 * b2) * (r2 * b1) == (c2 * b1) * (r2 * b2)) by (nonlinear_arith);
    assert((c1 * a2) * (r1 * a1) == (c1 * a1) * (r1 * a2)) by (nonlinear_arith);
    assert((c2 * b2) * (r1 * a1) == (a1 * b2) * (c2 * r1)) by (nonlinear_arith);
    assert((c1 * a2) * (r2 * b1) == (a2 * b1) * (c1 * r2)) by (nonlinear_arith);
    assert((c1 * a1) * (r2 * b2) == (a1 * b2) * (c1 * r2)) by (nonlinear_arith);
    assert((c2 * b1) * (r1 * a2) == (a2 * b1) * (c2 * r1)) by (nonlinear_arith);
    assert((a1 * b2) * (c2 * r1) - (a1 * b2) * (c1 * r2) - ((a2 * b1) * (c2 * r1) - (a2 * b1) * (c1
        * r2)) == (a1 * b2 - a2 * b1) * (c2 * r1 - c1 * r2)) by (nonlinear_arith);
    if a1 * b2 - a2 * b1 == 1 {
        assert((a1 * b2 - a2 * b1) * (c2 * r1 - c1 * r2) == c2 * r1 - c1 * r2) by (nonlinear_arith)
            requires
                a1 * b2 - a2 * b1 == 1,
        ;
    } else {
        assert((a1 * b2 - a2 * b1) * (c2 * r1 - c1 * r2) == -(c2 * r1 - c1 * r2))
            by (nonlinear_arith)
            requires
                a1 * b2 - a2 * b1 == -1,
        ;
    }
}

/// A value below `pow2(n)` keeps below `pow2(31)` once floor-divided by
/// `pow2(t)`, provided `n <= t + 31`.
proof fn lemma_trunc_fits(v: int, n: nat, t: nat)
    requires
        0 <= v,
        v < pow2(n),
        n <= t + 31,
    ensures
        0 <= v / (pow2(t) as int) < 0x8000_0000,
{
    lemma_pow2_pos(t);
    lemma_div_pos_is_pos(v, pow2(t) as int);
    lemma2_to64();
    if n < t + 31 {
        lemma_pow2_strictly_increases(n, t + 31);
    }
    lemma_pow2_adds(t, 31);
    lemma_multiply_divide_lt(v, pow2(t) as int, pow2(31) as int);
}

/// The partial extended GCD.
///
/// Runs the extended Euclidean algorithm on the remainder pair
/// `(r2_in, r1_in)` but stops as soon as the smaller remainder is zero or at
/// most `bound`, returning `(co2, co1, r2, r1)`: the two final remainders
/// together with cofactors satisfying `co2*r1 - co1*r2 == ±r2_in`. Runs of
/// Euclidean steps are carried out on truncated machine-word images of the
/// remainders and folded back into the full-precision state with four
/// multiply-accumulates; one exact full-precision step is taken whenever the
/// accelerated run made no progress. Every step applies a matrix of
/// determinant `1` or `-1` to the remainder pair, so the returned remainders
/// have exactly the common divisors of the inputs: the GCD is preserved.
pub fn partial_extended_gcd(r2_in: &BigInt, r1_in: &BigInt, bound: &BigInt) -> (res: (
    BigInt,
    BigInt,
    BigInt,
    BigInt,
))
    requires
        big_value(*r2_in) >= big_value(*r1_in) >= 0,
        big_value(*bound) >= 0,
    ensures
        ({
            let (co2, co1, r2, r1) = res;
            &&& big_value(r2) >= 0
            &&& big_value(r1) >= 0
            &&& (big_value(r1) == 0 || big_value(r1) <= big_value(*bound))
            &&& (big_value(co2) * big_value(r1) - big_value(co1) * big_value(r2) == big_value(
                *r2_in,
            ) || big_value(co2) * big_value(r1) - big_value(co1) * big_value(r2) == -big_value(
                *r2_in,
            ))
            &&& (big_value(*r1_in) == 0 || big_value(*r1_in) <= big_value(*bound)) ==> (big_value(
                co2,
            ) == 0 && big_value(co1) == -1 && big_value(r2) == big_value(*r2_in) && big_value(r1)
                == big_value(*r1_in))
            &&& (big_value(*r1_in) != 0 && big_value(*r1_in) > big_value(*bound))
                ==> big_value(r1) < big_value(*r1_in)
            &&& big_value(r2) >= big_value(r1)
            &&& forall|e: int|
                (divides(e, big_value(*r2_in)) && divides(e, big_value(*r1_in))) <==> (divides(
                    e,
                    big_value(r2),
                ) && divides(e, big_value(r1)))
        }),
{
    let mut co1 = big_from_i64(-1);
    let mut co2 = big_from_i64(0);
    let mut r2 = big_clone(r2_in);
    let mut r1 = big_clone(r1_in);

    loop
        invariant
            big_value(*r2_in) >= big_value(*r1_in) >= 0,
            big_value(*bound) >= 0,
            big_value(r2) >= 0,
            big_value(r1) >= 0,
            big_value(co2) * big_value(r1) - big_value(co1) * big_value(r2) == big_value(*r2_in)
                || big_value(co2) * big_value(r1) - big_value(co1) * big_value(r2) == -big_value(
                *r2_in,
            ),
            (big_value(*r1_in) == 0 || big_value(*r1_in) <= big_value(*bound)) ==> (big_value(co2)
                == 0 && big_value(co1) == -1 && big_value(r2) == big_value(*r2_in) && big_value(r1)
                == big_value(*r1_in)),
            big_value(r2) >= big_value(r1),
            forall|e: int|
                (divides(e, big_value(*r2_in)) && divides(e, big_value(*r1_in))) <==> (divides(
                    e,
                    big_value(r2),
                ) && divides(e, big_value(r1))),
        ensures
            big_value(r2) >= 0,
            big_value(r1) >= 0,
            big_value(r1) == 0 || big_value(r1) <= big_value(*bound),
            big_value(co2) * big_value(r1) - big_value(co1) * big_value(r2) == big_value(*r2_in)
                || big_value(co2) * big_value(r1) - big_value(co1) * big_value(r2) == -big_value(
                *r2_in,
            ),
            (big_value(*r1_in) == 0 || big_value(*r1_in) <= big_value(*bound)) ==> (big_value(co2)
                == 0 && big_value(co1) == -1 && big_value(r2) == big_value(*r2_in) && big_value(r1)
                == big_value(*r1_in)),
            big_value(r2) >= big_value(r1),
            forall|e: int|
                (divides(e, big_value(*r2_in)) && divides(e, big_value(*r1_in))) <==> (divides(
                    e,
                    big_value(r2),
                ) && divides(e, big_value(r1))),
        decreases big_value(r1),
    {
        if big_is_zero(&r1) {
            break ;
        }
        if !big_lt(bound, &r1) {
            break ;
        }

        // Shift selection: truncate so that the word images keep below 2^31.
        let n2 = big_bits(&r2);
        let n1 = big_bits(&r1);
        let m: u64 = if n2 >= n1 {
            n2
        } else {
            n1
        };
        let t: u64 = if m > 31 {
            m - 31
        } else {
            0
        };
        proof {
            lemma_pow2_pos(n2 as nat);
            lemma_pow2_pos(n1 as nat);
            if n2 < m {
                lemma_pow2_strictly_increases(n2 as nat, m as nat);
            }
            if n1 < m {
                lemma_pow2_strictly_increases(n1 as nat, m as nat);
            }
            lemma_trunc_fits(big_value(r2), m as nat, t as nat);
            lemma_trunc_fits(big_value(r1), m as nat, t as nat);
            lemma_trunc_fits(big_value(*bound), m as nat, t as nat);
        }
        let s2 = shift_trunc(&r2, t);
        let rr2: i64 = big_to_i64(&s2);
        let s1 = shift_trunc(&r1, t);
        let rr1: i64 = big_to_i64(&s1);
        let sb = shift_trunc(bound, t);
        let bb: i64 = big_to_i64(&sb);

        let (a1, a2, b1, b2, index) = accelerate(rr2, rr1, bb);

        if index == 0 {
            // No acceleration was possible: one exact step.
            let ghost oc2: int = big_value(co2);
            let ghost oc1: int = big_value(co1);
            let ghost or2: int = big_value(r2);
            let ghost or1: int = big_value(r1);
            let (nr2, nr1, nc2, nc1) = euclid_step(&r2, &r1, &co2, &co1);
            proof {
                lemma_euclid_common_divisors(or2, or1, or2 / or1, big_value(nr1));
                lemma_step_identity(
                    or2,
                    or1,
                    oc2,
                    oc1,
                    big_value(nr2),
                    big_value(nr1),
                    big_value(nc2),
                    big_value(nc1),
                    or2 / or1,
                    big_value(*r2_in),
                );
            }
            r2 = nr2;
            r1 = nr1;
            co2 = nc2;
            co1 = nc1;
        } else {
            // Recombination: apply the word matrix to the full-precision state.
            let ta1 = big_from_i64(a1);
            let ta2 = big_from_i64(a2);
            let tb1 = big_from_i64(b1);
            let tb2 = big_from_i64(b2);
            let p1 = big_mul(&r2, &tb2);
            let p2 = big_mul(&r1, &ta2);
            let mut nr2 = big_add(&p1, &p2);
            let p3 = big_mul(&r1, &ta1);
            let p4 = big_mul(&r2, &tb1);
            let mut nr1 = big_add(&p3, &p4);
            let p5 = big_mul(&co2, &tb2);
            let p6 = big_mul(&co1, &ta2);
            let mut nc2 = big_add(&p5, &p6);
            let p7 = big_mul(&co1, &ta1);
            let p8 = big_mul(&co2, &tb1);
            let mut nc1 = big_add(&p7, &p8);
            proof {
                lemma_matrix_identity(
                    a1 as int,
                    a2 as int,
                    b1 as int,
                    b2 as int,
                    big_value(r2),
                    big_value(r1),
                    big_value(co2),
                    big_value(co1),
                    big_value(*r2_in),
                );
                lemma_matrix_common_divisors(
                    a1 as int,
                    a2 as int,
                    b1 as int,
                    b2 as int,
                    big_value(r2),
                    big_value(r1),
                    big_value(nr2),
                    big_value(nr1),
                );
            }
            // Sign normalization: make both remainders non-negative, negating
            // the matching cofactor alongside, which keeps the identity.
            if big_is_negative(&nr1) {
                let ghost o1: int = big_value(nr1);
                let ghost oc1n: int = big_value(nc1);
                nr1 = big_neg(&nr1);
                nc1 = big_neg(&nc1);
                proof {
                    assert(big_value(nc2) * (-o1) - (-oc1n) * big_value(nr2) == -(big_value(nc2)
                        * o1 - oc1n * big_value(nr2))) by (nonlinear_arith);
                    lemma_negate_common_divisors(big_value(nr2), o1, big_value(nr2), -o1);
                }
            }
            if big_is_negative(&nr2) {
                let ghost o2: int = big_value(nr2);
                let ghost oc2n: int = big_value(nc2);
                nr2 = big_neg(&nr2);
                nc2 = big_neg(&nc2);
                proof {
                    assert((-oc2n) * big_value(nr1) - big_value(nc1) * (-o2) == -(oc2n * big_value(
                        nr1,
                    ) - big_value(nc1) * o2)) by (nonlinear_arith);
                    lemma_negate_common_divisors(o2, big_value(nr1), -o2, big_value(nr1));
                }
            }
            if big_lt(&nr1, &r1) && big_lt(&nr1, &nr2) {
                r2 = nr2;
                r1 = nr1;
                co2 = nc2;
                co1 = nc1;
            } else {
                // The certified run did not shrink the true remainder or
                // left the pair unordered; fall back to one exact step so
                // that progress and ordering are guaranteed.
                let ghost oc2: int = big_value(co2);
                let ghost oc1: int = big_value(co1);
                let ghost or2: int = big_value(r2);
                let ghost or1: int = big_value(r1);
                let (xr2, xr1, xc2, xc1) = euclid_step(&r2, &r1, &co2, &co1);
                proof {
                    lemma_euclid_common_divisors(or2, or1, or2 / or1, big_value(xr1));
                    lemma_step_identity(
                        or2,
                        or1,
                        oc2,
                        oc1,
                        big_value(xr2),
                        big_value(xr1),
                        big_value(xc2),
                        big_value(xc1),
                        or2 / or1,
                        big_value(*r2_in),
                    );
                }
                r2 = xr2;
                r1 = xr1;
                co2 = xc2;
                co1 = xc1;
            }
        }
    }

    // Make the larger remainder non-negative, carrying its cofactors along.
    if big_is_negative(&r2) {
        co1 = big_neg(&co1);
        co2 = big_neg(&co2);
        r2 = big_neg(&r2);
    }
    (co2, co1, r2, r1)
}

/// The plain partial extended GCD: computed one full-precision Euclidean
/// step at a time with no machine-word acceleration, and therefore pinned
/// completely: the returned remainders equal [`remainder_chain`] of the
/// inputs. It serves as the reference against which the accelerated
/// remainders are cross-checked.
pub fn partial_extended_gcd_plain(r2_in: &BigInt, r1_in: &BigInt, bound: &BigInt) -> (res: (
    BigInt,
    BigInt,
    BigInt,
    BigInt,
))
    requires
        big_value(*r2_in) >= big_value(*r1_in) >= 0,
        big_value(*bound) >= 0,
    ensures
        ({
            let (co2, co1, r2, r1) = res;
            &&& big_value(r2) >= 0
            &&& big_value(r1) >= 0
            &&& (big_value(r1) == 0 || big_value(r1) <= big_value(*bound))
            &&& (big_value(co2) * big_value(r1) - big_value(co1) * big_value(r2) == big_value(
                *r2_in,
            ) || big_value(co2) * big_value(r1) - big_value(co1) * big_value(r2) == -big_value(
                *r2_in,
            ))
            &&& (big_value(*r1_in) == 0 || big_value(*r1_in) <= big_value(*bound)) ==> (big_value(
                co2,
            ) == 0 && big_value(co1) == -1 && big_value(r2) == big_value(*r2_in) && big_value(r1)
                == big_value(*r1_in))
            &&& (big_value(*r1_in) != 0 && big_value(*r1_in) > big_value(*bound))
                ==> big_value(r1) < big_value(*r1_in)
            &&& big_value(r2) >= big_value(r1)
            &&& (big_value(r2), big_value(r1)) == remainder_chain(
                big_value(*r2_in),
                big_value(*r1_in),
                big_value(*bound),
            )
        }),
{
    let mut co1 = big_from_i64(-1);
    let mut co2 = big_from_i64(0);
    let mut r2 = big_clone(r2_in);
    let mut r1 = big_clone(r1_in);

    loop
        invariant
            big_value(*r2_in) >= big_value(*r1_in) >= 0,
            big_value(*bound) >= 0,
            big_value(r2) >= 0,
            big_value(r1) >= 0,
            big_value(co2) * big_value(r1) - big_value(co1) * big_value(r2) == big_value(*r2_in)
                || big_value(co2) * big_value(r1) - big_value(co1) * big_value(r2) == -big_value(
                *r2_in,
            ),
            (big_value(*r1_in) == 0 || big_value(*r1_in) <= big_value(*bound)) ==> (big_value(co2)
                == 0 && big_value(co1) == -1 && big_value(r2) == big_value(*r2_in) && big_value(r1)
                == big_value(*r1_in)),
            big_value(r2) >= big_value(r1),
            remainder_chain(big_value(r2), big_value(r1), big_value(*bound)) == remainder_chain(
                big_value(*r2_in),
                big_value(*r1_in),
                big_value(*bound),
            ),
        ensures
            big_value(r2) >= 0,
            big_value(r1) >= 0,
            big_value(r1) == 0 || big_value(r1) <= big_value(*bound),
            big_value(co2) * big_value(r1) - big_value(co1) * big_value(r2) == big_value(*r2_in)
                || big_value(co2) * big_value(r1) - big_value(co1) * big_value(r2) == -big_value(
                *r2_in,
            ),
            (big_value(*r1_in) == 0 || big_value(*r1_in) <= big_value(*bound)) ==> (big_value(co2)
                == 0 && big_value(co1) == -1 && big_value(r2) == big_value(*r2_in) && big_value(r1)
                == big_value(*r1_in)),
            big_value(r2) >= big_value(r1),
            remainder_chain(big_value(r2), big_value(r1), big_value(*bound)) == remainder_chain(
                big_value(*r2_in),
                big_value(*r1_in),
                big_value(*bound),
            ),
        decreases big_value(r1),
    {
        if big_is_zero(&r1) {
            break ;
        }
        if !big_lt(bound, &r1) {
            break ;
        }
        let ghost oc2: int = big_value(co2);
        let ghost oc1: int = big_value(co1);
        let ghost or2: int = big_value(r2);
        let ghost or1: int = big_value(r1);
        let (nr2, nr1, nc2, nc1) = euclid_step(&r2, &r1, &co2, &co1);
        proof {
            assert(remainder_chain(or2, or1, big_value(*bound)) == remainder_chain(
                or1,
                or2 % or1,
                big_value(*bound),
            ));
            lemma_step_identity(
                or2,
                or1,
                oc2,
                oc1,
                big_value(nr2),
                big_value(nr1),
                big_value(nc2),
                big_value(nc1),
                or2 / or1,
                big_value(*r2_in),
            );
        }
        r2 = nr2;
        r1 = nr1;
        co2 = nc2;
        co1 = nc1;
    }

    if big_is_negative(&r2) {
        co1 = big_neg(&co1);
        co2 = big_neg(&co2);
        r2 = big_neg(&r2);
    }
    (co2, co1, r2, r1)
}

} // verus!
