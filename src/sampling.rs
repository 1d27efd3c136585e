use vstd::arithmetic::div_mod::*;
use vstd::arithmetic::power::*;
use vstd::prelude::*;

use crate::curve::on_curve;
use crate::enumerate::{curve_rhs, rhs_spec};
use crate::error::EcError;
use crate::field::{
    add_mod, euler_residue, has_sqrt, is_sqrt, legendre, lemma_euler_criterion,
    lemma_sqrt_passes_criterion, mul_mod, quadratic_residue, valid_modulus,
};
use crate::number_theory::is_prime;
use crate::random::{random_below, SAMPLE_LIMIT};
use crate::sqrt::mod_sqrt;

verus! {

/// The curve `y^2 = x^3 + A x + B` has no repeated root: `4A^3 + 27B^2 != 0 (mod p)`.
pub open spec fn nonsingular(a: int, b: int, p: int) -> bool {
    (4 * (a * a * a) + 27 * (b * b)) % p != 0
}

/// Tests the coefficients `(A, B)` for nonsingularity modulo `p`.
pub fn is_nonsingular(a: u128, b: u128, p: u128) -> (r: bool)
    requires
        p > 0,
    ensures
        r == nonsingular(a as int, b as int, p as int),
{
    let ghost pi = p as int;
    let a3 = mul_mod(mul_mod(a, a, p), a, p);
    let b2 = mul_mod(b, b, p);
    let d = add_mod(mul_mod(4, a3, p), mul_mod(27, b2, p), p);
    proof {
        lemma_mul_mod_noop_left(a * a, a as int, pi);
        lemma_mul_mod_noop_right(4, a * a * a, pi);
        lemma_mul_mod_noop_right(27, b * b, pi);
        lemma_add_mod_noop(4 * (a * a * a), 27 * (b * b), pi);
    }
    d != 0
}

/// Draws random coefficients `(A, B)` in `[0, p)` until they give a
/// nonsingular curve.
pub fn get_ec_coeffs(p: u128) -> (r: Result<(u128, u128), EcError>)
    requires
        valid_modulus(p as int),
    ensures
        match r {
            Ok((a, b)) => a < p && b < p && nonsingular(a as int, b as int, p as int),
            Err(e) => e == EcError::SamplingExhausted,
        },
{
    let mut attempt: u32 = 0;
    while attempt < SAMPLE_LIMIT
        invariant
            valid_modulus(p as int),
        decreases SAMPLE_LIMIT - attempt,
    {
        let a = random_below(p);
        let b = random_below(p);
        if is_nonsingular(a, b, p) {
            return Ok((a, b));
        }
        attempt = attempt + 1;
    }
    Err(EcError::SamplingExhausted)
}

/// Decides one candidate `x`: `Some(y)` with `y` a nonzero square root of
/// `x^3 + A x + B`, or `None` when that value is 0 or fails Euler's criterion.
pub fn point_at(x: u128, a: u128, b: u128, p: u128) -> (r: Result<Option<u128>, EcError>)
    requires
        valid_modulus(p as int),
    ensures
        rhs_spec(x as int, a as int, b as int, p as int) == 0 ==> r == Ok::<Option<u128>, EcError>(
            None,
        ),
        !euler_residue(rhs_spec(x as int, a as int, b as int, p as int), p as int) ==> r == Ok::<
            Option<u128>,
            EcError,
        >(None),
        rhs_spec(x as int, a as int, b as int, p as int) != 0 && legendre(
            rhs_spec(x as int, a as int, b as int, p as int),
            p as int,
        ) == 0 ==> r == Err::<Option<u128>, EcError>(EcError::NonResidue),
        rhs_spec(x as int, a as int, b as int, p as int) != 0 && legendre(
            rhs_spec(x as int, a as int, b as int, p as int),
            p as int,
        ) == 1 && p % 4 == 3 ==> r == Ok::<Option<u128>, EcError>(
            Some(
                (pow(rhs_spec(x as int, a as int, b as int, p as int), ((p + 1) / 4) as nat) % (
                p as int)) as u128,
            ),
        ),
        is_prime(p as int) && !has_sqrt(rhs_spec(x as int, a as int, b as int, p as int), p as int)
            ==> r == Ok::<Option<u128>, EcError>(None),
        is_prime(p as int) && rhs_spec(x as int, a as int, b as int, p as int) != 0 && has_sqrt(
            rhs_spec(x as int, a as int, b as int, p as int),
            p as int,
        ) ==> (r matches Ok(Some(_)) || r == Err::<Option<u128>, EcError>(
            EcError::SamplingExhausted,
        )),
        match r {
            Ok(Some(y)) => 0 < y < p && is_sqrt(
                y as int,
                rhs_spec(x as int, a as int, b as int, p as int),
                p as int,
            ),
            Ok(None) => true,
            Err(e) => e == EcError::SamplingExhausted || (!is_prime(p as int) && e
                == EcError::NonResidue),
        },
{
    let z = curve_rhs(x, a, b, p);
    proof {
        lemma_small_mod(z as nat, p as nat);
        lemma_small_mod(0, p as nat);
        if is_prime(p as int) {
            lemma_euler_criterion(z as int, p as int);
            if has_sqrt(z as int, p as int) && z != 0 {
                lemma_sqrt_passes_criterion(z as int, p as int);
            }
        }
    }
    if z == 0 {
        return Ok(None);
    }
    if !quadratic_residue(z, p) {
        return Ok(None);
    }
    match mod_sqrt(z, p) {
        Ok(y) => {
            if y == 0 {
                proof {
                    assert((0int * 0int) % (p as int) == 0);
                }
            }
            Ok(Some(y))
        },
        Err(e) => Err(e),
    }
}

/// Draws random `x` in `[0, p)` and hands each to [`point_at`] until one gives
/// a point `(x, y)`; gives up after `SAMPLE_LIMIT` draws.
pub fn get_ec_point(curve_coeffs: &(u128, u128), p: u128) -> (r: Result<(u128, u128), EcError>)
    requires
        valid_modulus(p as int),
    ensures
        match r {
            Ok((x, y)) => x < p && 0 < y < p && on_curve(
                x as int,
                y as int,
                curve_coeffs.0 as int,
                curve_coeffs.1 as int,
                p as int,
            ),
            Err(e) => e == EcError::SamplingExhausted || (!is_prime(p as int) && e
                == EcError::NonResidue),
        },
        is_prime(p as int) ==> r != Err::<(u128, u128), EcError>(EcError::NonResidue),
{
    let (a, b) = *curve_coeffs;
    let mut attempt: u32 = 0;
    while attempt < SAMPLE_LIMIT
        invariant
            valid_modulus(p as int),
            (a, b) == *curve_coeffs,
        decreases SAMPLE_LIMIT - attempt,
    {
        let x = random_below(p);
        match point_at(x, a, b, p) {
            Ok(Some(y)) => {
                proof {
                    lemma_mod_twice((x * x * x + a * x + b) as int, p as int);
                }
                return Ok((x, y));
            },
            Ok(None) => {},
            Err(e) => {
                return Err(e);
            },
        }
        attempt = attempt + 1;
    }
    Err(EcError::SamplingExhausted)
}

} // verus!
