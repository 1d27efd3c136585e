use vstd::arithmetic::div_mod::*;
use vstd::arithmetic::mul::*;
use vstd::arithmetic::power::*;
use vstd::prelude::*;

use crate::field::{add_mod, mod_sub, mul_mod, power, valid_modulus};
use crate::number_theory::{
    inv_of, is_prime, lemma_cancel_unit, lemma_euclid, lemma_inv_of, lemma_small_nonzero_mod,
};

verus! {

/// A point of a short Weierstrass curve: the group identity (the point at
/// infinity) or an affine pair `(x, y)`.
#[derive(Clone, Copy, Debug, PartialEq, Eq, Structural)]
pub enum Point {
    Infinity,
    Affine(u128, u128),
}

/// Both coordinates of an affine point are reduced modulo `p`.
pub open spec fn in_field(pt: Point, p: int) -> bool {
    match pt {
        Point::Infinity => true,
        Point::Affine(x, y) => x < p && y < p,
    }
}

/// The affine pair `(x, y)` satisfies `y^2 = x^3 + A x + B (mod p)`.
pub open spec fn on_curve(x: int, y: int, a: int, b: int, p: int) -> bool {
    (y * y) % p == (x * x * x + a * x + b) % p
}

/// The chord-and-tangent slope for two affine points that are not inverses.
pub open spec fn slope(x1: int, y1: int, x2: int, y2: int, a: int, p: int) -> int {
    if x1 == x2 && y1 == y2 {
        ((3 * (x1 * x1) + a) * inv_of(2 * y1, p)) % p
    } else {
        ((y2 - y1) * inv_of(x2 - x1, p)) % p
    }
}

/// The group law on a curve with coefficient `A` over `F_p`.
pub open spec fn add_spec(pt: Point, qt: Point, a: int, p: int) -> Point {
    match pt {
        Point::Infinity => qt,
        Point::Affine(x1, y1) => match qt {
            Point::Infinity => pt,
            Point::Affine(x2, y2) => {
                if x1 == x2 && (y1 + y2) % p == 0 {
                    Point::Infinity
                } else {
                    let lam = slope(x1 as int, y1 as int, x2 as int, y2 as int, a, p);
                    let x3 = (lam * lam - x1 - x2) % p;
                    let y3 = (lam * (x1 - x3) - y1) % p;
                    Point::Affine(x3 as u128, y3 as u128)
                }
            },
        },
    }
}

/// `k * P` by double-and-add over the bits of `k`, most significant first.
pub open spec fn mult_spec(k: nat, pt: Point, a: int, p: int) -> Point
    decreases k,
{
    if k == 0 {
        Point::Infinity
    } else if k == 1 {
        pt
    } else {
        let half = mult_spec(k / 2, pt, a, p);
        let twice = add_spec(half, half, a, p);
        if k % 2 == 1 {
            add_spec(twice, pt, a, p)
        } else {
            twice
        }
    }
}

/// The group law keeps coordinates reduced.
proof fn lemma_add_in_field(pt: Point, qt: Point, a: int, p: int)
    requires
        p > 0,
        in_field(pt, p),
        in_field(qt, p),
    ensures
        in_field(add_spec(pt, qt, a, p), p),
{
}

/// Scalar multiples keep coordinates reduced.
proof fn lemma_mult_in_field(k: nat, pt: Point, a: int, p: int)
    requires
        p > 0,
        in_field(pt, p),
    ensures
        in_field(mult_spec(k, pt, a, p), p),
    decreases k,
{
    if k > 1 {
        let half = mult_spec(k / 2, pt, a, p);
        lemma_mult_in_field(k / 2, pt, a, p);
        lemma_add_in_field(half, half, a, p);
        lemma_add_in_field(add_spec(half, half, a, p), pt, a, p);
    }
}

/// The slope as the field routines compute it.
fn compute_slope(x1: u128, y1: u128, x2: u128, y2: u128, a: u128, p: u128) -> (r: u128)
    requires
        valid_modulus(p as int),
        x1 < p,
        y1 < p,
        x2 < p,
        y2 < p,
    ensures
        r == slope(x1 as int, y1 as int, x2 as int, y2 as int, a as int, p as int),
{
    let ghost pi = p as int;
    if x1 == x2 && y1 == y2 {
        let sq = mul_mod(x1, x1, p);
        let num = add_mod(mul_mod(3, sq, p), a % p, p);
        let den = power(add_mod(y1, y1, p), p - 2, p);
        proof {
            lemma_mul_mod_noop_right(3, x1 * x1, pi);
            lemma_add_mod_noop(3 * (x1 * x1), a as int, pi);
            lemma_pow_mod_noop(2 * y1, (p - 2) as nat, pi);
            lemma_mul_mod_noop_left(3 * (x1 * x1) + a, den as int, pi);
        }
        mul_mod(num, den, p)
    } else {
        let num = mod_sub(y2, y1, p);
        let den = power(mod_sub(x2, x1, p), p - 2, p);
        proof {
            lemma_pow_mod_noop(x2 - x1, (p - 2) as nat, pi);
            lemma_mul_mod_noop_left(y2 - y1, den as int, pi);
        }
        mul_mod(num, den, p)
    }
}

/// Adds two points of the curve with coefficient `A` by the chord-and-tangent
/// rule; the identity is neutral and a point plus its negation is the identity.
pub fn ec_add(P: &Point, Q: &Point, a: u128, p: u128) -> (r: Point)
    requires
        valid_modulus(p as int),
        in_field(*P, p as int),
        in_field(*Q, p as int),
    ensures
        r == add_spec(*P, *Q, a as int, p as int),
        in_field(r, p as int),
{
    let ghost pi = p as int;
    match *P {
        Point::Infinity => *Q,
        Point::Affine(x1, y1) => match *Q {
            Point::Infinity => *P,
            Point::Affine(x2, y2) => {
                if x1 == x2 && add_mod(y1, y2, p) == 0 {
                    Point::Infinity
                } else {
                    let lam = compute_slope(x1, y1, x2, y2, a, p);
                    let x3 = mod_sub(mul_mod(lam, lam, p), add_mod(x1, x2, p), p);
                    let y3 = mod_sub(mul_mod(lam, mod_sub(x1, x3, p), p), y1, p);
                    proof {
                        lemma_sub_mod_noop(lam * lam, x1 + x2, pi);
                        lemma_mul_mod_noop_right(lam as int, x1 - x3, pi);
                        lemma_small_mod(y1 as nat, p as nat);
                        lemma_sub_mod_noop(lam * (x1 - x3), y1 as int, pi);
                    }
                    Point::Affine(x3, y3)
                }
            },
        },
    }
}

/// `k * P` by double-and-add over the bits of `k`, most significant first;
/// `0 * P` is the identity.
pub fn ec_scalar_mult(k: u128, P: &Point, a: u128, p: u128) -> (r: Point)
    requires
        valid_modulus(p as int),
        in_field(*P, p as int),
    ensures
        r == mult_spec(k as nat, *P, a as int, p as int),
        in_field(r, p as int),
    decreases k,
{
    proof {
        lemma_mult_in_field(k as nat, *P, a as int, p as int);
    }
    if k == 0 {
        Point::Infinity
    } else if k == 1 {
        *P
    } else {
        let half = ec_scalar_mult(k / 2, P, a, p);
        let twice = ec_add(&half, &half, a, p);
        if k % 2 == 1 {
            ec_add(&twice, P, a, p)
        } else {
            twice
        }
    }
}


/// The largest scalar tried when looking for a point's order: `2p + 1` by
/// Hasse's bound, capped at the largest `u128`.
pub open spec fn order_limit(p: int) -> int {
    if 2 * p + 1 <= u128::MAX {
        2 * p + 1
    } else {
        u128::MAX as int
    }
}

/// `n` is the order of `P`: the least positive multiple that is the identity.
pub open spec fn is_order(n: int, pt: Point, a: int, p: int) -> bool {
    &&& n >= 1
    &&& mult_spec(n as nat, pt, a, p) == Point::Infinity
    &&& forall|k: nat| 1 <= k < n ==> #[trigger] mult_spec(k, pt, a, p) != Point::Infinity
}

/// The order of `P`, searched by trying the scalars `1, 2, ...` up to
/// `order_limit(p)`; `None` when no scalar in that range gives the identity.
pub fn ec_point_order(P: &Point, a: u128, p: u128) -> (r: Option<u128>)
    requires
        valid_modulus(p as int),
        in_field(*P, p as int),
    ensures
        match r {
            Some(n) => n <= order_limit(p as int) && is_order(n as int, *P, a as int, p as int),
            None => forall|k: nat|
                1 <= k <= order_limit(p as int) ==> #[trigger] mult_spec(k, *P, a as int, p as int)
                    != Point::Infinity,
        },
{
    let limit: u128 = if p <= (u128::MAX - 1) / 2 {
        2 * p + 1
    } else {
        u128::MAX
    };
    let mut k: u128 = 1;
    loop
        invariant
            valid_modulus(p as int),
            in_field(*P, p as int),
            limit == order_limit(p as int),
            1 <= k <= limit,
            forall|j: nat| 1 <= j < k ==> #[trigger] mult_spec(j, *P, a as int, p as int) != Point::Infinity,
        decreases limit - k,
    {
        let multiple = ec_scalar_mult(k, P, a, p);
        if multiple == Point::Infinity {
            return Some(k);
        }
        if k == limit {
            return None;
        }
        k = k + 1;
    }
}


/// An affine point lies on `y^2 = x^3 + A x + B`; the identity always counts.
pub open spec fn on_curve_point(pt: Point, a: int, b: int, p: int) -> bool {
    match pt {
        Point::Infinity => true,
        Point::Affine(x, y) => on_curve(x as int, y as int, a, b, p),
    }
}

/// The identity is neutral on both sides: `O + P = P` and `P + O = P`.
pub proof fn lemma_identity_neutral(pt: Point, a: int, p: int)
    ensures
        add_spec(Point::Infinity, pt, a, p) == pt,
        add_spec(pt, Point::Infinity, a, p) == pt,
{
}

/// The slope times the run gives back the rise: `((r / d) mod p) * d = r (mod p)`.
proof fn lemma_slope_times_run(rise: int, run: int, p: int)
    requires
        is_prime(p),
        run % p != 0,
    ensures
        (((rise * inv_of(run, p)) % p) * run) % p == rise % p,
{
    let i = inv_of(run, p);
    lemma_mul_mod_noop_left(rise * i, run, p);
    lemma_mul_is_associative(rise, i, run);
    lemma_mul_mod_noop_right(rise, i * run, p);
    lemma_inv_of(run, p);
    lemma_mul_is_commutative(i, run);
    lemma_mul_mod_noop_right(rise, 1, p);
}

/// The sum of two distinct-`x` points does not depend on their order.
proof fn lemma_chord_commutative(x1: int, y1: int, x2: int, y2: int, a: int, p: int)
    requires
        is_prime(p),
        0 <= x1 < p,
        0 <= x2 < p,
        x1 != x2,
    ensures
        slope(x1, y1, x2, y2, a, p) == slope(x2, y2, x1, y1, a, p),
        ({
            let lam = slope(x1, y1, x2, y2, a, p);
            let x3 = (lam * lam - x1 - x2) % p;
            (lam * (x1 - x3) - y1) % p == (lam * (x2 - x3) - y2) % p
        }),
{
    let d = x2 - x1;
    lemma_small_nonzero_mod(d, p);
    lemma_small_nonzero_mod(-d, p);
    let s12 = slope(x1, y1, x2, y2, a, p);
    let s21 = slope(x2, y2, x1, y1, a, p);
    lemma_slope_times_run(y2 - y1, d, p);
    lemma_slope_times_run(y1 - y2, -d, p);
    lemma_add_mod_noop(s12 * d, s21 * (-d), p);
    lemma_add_mod_noop(y2 - y1, y1 - y2, p);
    lemma_small_mod(0, p as nat);
    assert((s12 - s21) * d == s12 * d + s21 * (-d)) by (nonlinear_arith);
    lemma_cancel_unit(s12, s21, d, p);
    let x3 = (s12 * s12 - x1 - x2) % p;
    let lhs = s12 * (x1 - x3) - y1;
    let rhs = s12 * (x2 - x3) - y2;
    assert(lhs - rhs == (y2 - y1) - s12 * d) by (nonlinear_arith)
        requires
            lhs == s12 * (x1 - x3) - y1,
            rhs == s12 * (x2 - x3) - y2,
            d == x2 - x1,
    ;
    lemma_sub_mod_noop(y2 - y1, s12 * d, p);
    lemma_mod_equivalence(lhs, rhs, p);
}

/// The group law is commutative: `P + Q = Q + P` for points of one curve over
/// a prime field.
pub proof fn lemma_add_commutative(pt: Point, qt: Point, a: int, b: int, p: int)
    requires
        is_prime(p),
        in_field(pt, p),
        in_field(qt, p),
        on_curve_point(pt, a, b, p),
        on_curve_point(qt, a, b, p),
    ensures
        add_spec(pt, qt, a, p) == add_spec(qt, pt, a, p),
{
    if let (Point::Affine(x1, y1), Point::Affine(x2, y2)) = (pt, qt) {
        let (x1, y1, x2, y2) = (x1 as int, y1 as int, x2 as int, y2 as int);
        if x1 == x2 {
            if (y1 + y2) % p != 0 && y1 != y2 {
                // both squares equal the same right-hand side
                let (hi, lo) = if y1 > y2 {
                    (y1, y2)
                } else {
                    (y2, y1)
                };
                lemma_sub_mod_noop(hi * hi, lo * lo, p);
                lemma_small_mod(0, p as nat);
                assert(hi * hi - lo * lo == (hi - lo) * (hi + lo)) by (nonlinear_arith);
                lemma_euclid(p, hi - lo, hi + lo);
                lemma_small_mod((hi - lo) as nat, p as nat);
            }
        } else {
            lemma_chord_commutative(x1, y1, x2, y2, a, p);
        }
    }
}

} // verus!
