use num_bigint::BigUint;
use num_traits::ToPrimitive;
use vstd::arithmetic::div_mod::*;
use vstd::arithmetic::power::*;
use vstd::prelude::*;

use crate::error::EcError;
use crate::number_theory::{
    has_partner, inv_of, is_prime, lemma_euclid, lemma_fermat, lemma_inv_of,
    lemma_paired_product, lemma_prod_permutation, lemma_wilson, partner_at,
};

verus! {

/// A modulus that the field operations accept: odd and at least 3.
pub open spec fn valid_modulus(p: int) -> bool {
    p >= 3 && p % 2 == 1
}

/// Euler's criterion value `z^((p-1)/2) mod p`.
pub open spec fn legendre(z: int, p: int) -> int {
    pow(z, ((p - 1) / 2) as nat) % p
}

/// `z` passes Euler's criterion: its Legendre value is 0 or 1.
pub open spec fn euler_residue(z: int, p: int) -> bool {
    legendre(z, p) == 0 || legendre(z, p) == 1
}

/// `r` is a reduced square root of `z` modulo `p`.
pub open spec fn is_sqrt(r: int, z: int, p: int) -> bool {
    0 <= r < p && (r * r) % p == z % p
}

/// `z` has a square root modulo `p`.
pub open spec fn has_sqrt(z: int, p: int) -> bool {
    exists|y: int| is_sqrt(y, z, p)
}

/// Relies on `BigUint::modpow`: it returns `(base ^ exponent) % modulus` and
/// panics only on a zero modulus.
#[verifier::external_body]
fn big_modpow(base: u128, exponent: u128, modulus: u128) -> (r: u128)
    requires
        modulus > 1,
    ensures
        r == pow(base as int, exponent as nat) % (modulus as int),
{
    let r = BigUint::from(base).modpow(&BigUint::from(exponent), &BigUint::from(modulus));
    r.to_u128().unwrap()
}

/// Modular exponentiation: `base^exponent mod p`, with `base` reduced first.
pub fn power(base: u128, exponent: u128, p: u128) -> (r: u128)
    requires
        p > 1,
    ensures
        r == pow(base as int, exponent as nat) % (p as int),
        r < p,
{
    big_modpow(base, exponent, p)
}

/// `(a + b) mod p` for reduced operands, without overflow.
pub fn add_mod(a: u128, b: u128, p: u128) -> (r: u128)
    requires
        a < p,
        b < p,
    ensures
        r == (a + b) % (p as int),
        r < p,
{
    if a >= p - b {
        let r = a - (p - b);
        proof {
            lemma_fundamental_div_mod_converse(a + b, p as int, 1, r as int);
        }
        r
    } else {
        proof {
            lemma_small_mod((a + b) as nat, p as nat);
        }
        a + b
    }
}

/// One step of double-and-add keeps `acc + base * k` fixed modulo `p`.
proof fn lemma_double_and_add_step(acc: int, base: int, k: int, p: int, acc2: int, base2: int)
    requires
        p > 0,
        k >= 0,
        acc2 == (acc + (k % 2) * base) % p,
        base2 == (2 * base) % p,
    ensures
        (acc2 + base2 * (k / 2)) % p == (acc + base * k) % p,
{
    let h = k / 2;
    let bit = k % 2;
    lemma_fundamental_div_mod(k, 2);
    assert(base * k == bit * base + (2 * base) * h) by (nonlinear_arith)
        requires
            k == 2 * h + bit,
    ;
    lemma_mul_mod_noop_left(2 * base, h, p);
    lemma_add_mod_noop(acc + bit * base, (2 * base) * h, p);
    lemma_add_mod_noop(acc2, base2 * h, p);
    lemma_mod_twice(acc + bit * base, p);
}

/// `(a * b) mod p`, formed by doubling and adding so that nothing exceeds `p`.
pub fn mul_mod(a: u128, b: u128, p: u128) -> (r: u128)
    requires
        p > 0,
    ensures
        r == (a * b) % (p as int),
        r < p,
{
    let mut acc: u128 = 0;
    let mut base: u128 = a % p;
    let mut k: u128 = b;
    proof {
        lemma_mul_mod_noop_left(a as int, b as int, p as int);
        lemma_small_mod(0, p as nat);
    }
    while k > 0
        invariant
            p > 0,
            acc < p,
            base < p,
            (acc + base * k) % (p as int) == (a * b) % (p as int),
        decreases k,
    {
        let ghost (acc0, base0, k0) = (acc as int, base as int, k as int);
        if k % 2 == 1 {
            acc = add_mod(acc, base, p);
            assert((k0 % 2) * base0 == base0) by (nonlinear_arith)
                requires
                    k0 % 2 == 1,
            ;
            assert(acc == (acc0 + (k0 % 2) * base0) % (p as int));
        } else {
            proof {
                lemma_small_mod(acc as nat, p as nat);
            }
            assert(acc == (acc0 + (k0 % 2) * base0) % (p as int));
        }
        base = add_mod(base, base, p);
        k = k / 2;
        proof {
            lemma_double_and_add_step(acc0, base0, k0, p as int, acc as int, base as int);
        }
    }
    proof {
        lemma_small_mod(acc as nat, p as nat);
    }
    acc
}

/// `(a - b) mod p` for any `a` and `b`, never relying on signed wrap-around.
pub fn mod_sub(a: u128, b: u128, p: u128) -> (r: u128)
    requires
        p > 0,
    ensures
        r == (a - b) % (p as int),
        r < p,
{
    let x = a % p;
    let y = b % p;
    proof {
        lemma_sub_mod_noop(a as int, b as int, p as int);
    }
    if x >= y {
        proof {
            lemma_small_mod((x - y) as nat, p as nat);
        }
        x - y
    } else {
        let r = p - (y - x);
        proof {
            lemma_fundamental_div_mod_converse(x - y, p as int, -1, r as int);
        }
        r
    }
}

/// The multiplicative inverse `a^(p-2) mod p`; a multiple of `p` has none.
pub fn mod_inv(a: u128, p: u128) -> (r: Result<u128, EcError>)
    requires
        valid_modulus(p as int),
    ensures
        a % p == 0 <==> r == Err::<u128, EcError>(EcError::NoInverse),
        a % p != 0 ==> r == Ok::<u128, EcError>(inv_of(a as int, p as int) as u128),
        match r {
            Ok(v) => v < p && (is_prime(p as int) ==> (a * v) % (p as int) == 1),
            Err(_) => true,
        },
{
    if a % p == 0 {
        Err(EcError::NoInverse)
    } else {
        proof {
            if is_prime(p as int) {
                lemma_inv_of(a as int, p as int);
            }
        }
        Ok(power(a, p - 2, p))
    }
}

/// Euler's criterion: true iff `z^((p-1)/2) mod p` is 0 or 1, which for a
/// prime `p` holds exactly when `z` has a square root.
pub fn quadratic_residue(z: u128, p: u128) -> (r: bool)
    requires
        valid_modulus(p as int),
    ensures
        r == euler_residue(z as int, p as int),
        is_prime(p as int) ==> (r <==> has_sqrt(z as int, p as int)),
{
    proof {
        if is_prime(p as int) {
            lemma_euler_criterion(z as int, p as int);
        }
    }
    let l = power(z, (p - 1) / 2, p);
    l == 0 || l == 1
}

/// Inverse law: for a prime `p` and `a` in `[1, p)`, `a * inverse(a, p) = 1 (mod p)`.
pub proof fn lemma_inverse_law(a: int, p: int)
    requires
        is_prime(p),
        1 <= a < p,
    ensures
        (a * inv_of(a, p)) % p == 1,
{
    lemma_small_mod(a as nat, p as nat);
    lemma_inv_of(a, p);
}

/// Euler's criterion holds of every square: if `y^2 = z (mod p)` for an odd
/// prime `p`, then `z^((p-1)/2) mod p` is 0 when `p` divides `z` and 1 otherwise.
pub proof fn lemma_square_passes_criterion(z: int, y: int, p: int)
    requires
        is_prime(p),
        p % 2 == 1,
        (y * y) % p == z % p,
    ensures
        z % p == 0 ==> legendre(z, p) == 0,
        z % p != 0 ==> legendre(z, p) == 1,
        euler_residue(z, p),
{
    let e = ((p - 1) / 2) as nat;
    lemma_pow_mod_noop(z, e, p);
    lemma_pow_mod_noop(y * y, e, p);
    if z % p == 0 {
        lemma0_pow(e);
        lemma_small_mod(0, p as nat);
    } else {
        if y % p == 0 {
            lemma_mul_mod_noop_left(y, y, p);
            lemma_small_mod(0, p as nat);
        }
        lemma_square_is_pow2(y);
        lemma_pow_multiplies(y, 2, e);
        assert(2 * e == p - 1);
        lemma_fermat(y, p);
    }
}

/// Euler's criterion, from squares: every `z` with a square root modulo an odd
/// prime passes `quadratic_residue`.
pub proof fn lemma_sqrt_passes_criterion(z: int, p: int)
    requires
        is_prime(p),
        p % 2 == 1,
        has_sqrt(z, p),
    ensures
        euler_residue(z, p),
        z % p != 0 ==> legendre(z, p) == 1,
{
    let y = choose|y: int| is_sqrt(y, z, p);
    lemma_square_passes_criterion(z, y, p);
}

/// Euler's criterion, for non-squares: if `z` has no square root modulo an odd
/// prime `p`, then `z^((p-1)/2) = -1 (mod p)`.
pub proof fn lemma_non_square_criterion(z: int, p: int)
    requires
        is_prime(p),
        p % 2 == 1,
        !has_sqrt(z, p),
    ensures
        z % p != 0,
        legendre(z, p) == p - 1,
{
    lemma_small_mod(0, p as nat);
    if z % p == 0 {
        assert(is_sqrt(0, z, p));
    }
    let n = (p - 1) as nat;
    let all = Seq::new(n, |i: int| i + 1);
    // pair each x with z / x; no x is its own partner since z is not a square
    assert forall|i: int| 0 <= i < n implies #[trigger] has_partner(all, i, z, p) by {
        let x = all[i];
        let v = inv_of(x, p);
        let y = (z * v) % p;
        lemma_small_mod(x as nat, p as nat);
        lemma_inv_of(x, p);
        lemma_mul_mod_noop_right(x, z * v, p);
        assert(x * (z * v) == z * (x * v)) by (nonlinear_arith);
        lemma_mul_mod_noop_right(z, x * v, p);
        if y == 0 {
            lemma_small_mod(v as nat, p as nat);
            lemma_euclid(p, z, v);
        }
        if y == x {
            assert(is_sqrt(x, z, p));
        }
        assert(partner_at(all, i, y - 1, z, p));
    }
    lemma_paired_product(all, z, p);
    lemma_prod_permutation(all, n);
    lemma_wilson(p);
}

/// Euler's criterion: modulo an odd prime, `z` passes `quadratic_residue`
/// exactly when it has a square root.
pub proof fn lemma_euler_criterion(z: int, p: int)
    requires
        is_prime(p),
        p % 2 == 1,
    ensures
        euler_residue(z, p) <==> has_sqrt(z, p),
{
    if has_sqrt(z, p) {
        lemma_sqrt_passes_criterion(z, p);
    } else {
        lemma_non_square_criterion(z, p);
    }
}

} // verus!
