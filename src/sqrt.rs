use vstd::arithmetic::div_mod::*;
use vstd::arithmetic::power::*;
use vstd::arithmetic::power2::*;
use vstd::prelude::*;

use crate::error::EcError;
use crate::field::{
    has_sqrt, is_sqrt, legendre, lemma_non_square_criterion, lemma_sqrt_passes_criterion,
    mul_mod, power, quadratic_residue, valid_modulus,
};
use crate::number_theory::{
    is_prime, lemma_fermat, lemma_minus_one_squared, lemma_square_roots_of_one,
};
use crate::random::{random_below, SAMPLE_LIMIT};

verus! {

/// Squaring `n^h` doubles the exponent, modulo `p`.
proof fn lemma_sq_of_pow(n: int, h: nat, p: int)
    requires
        p > 0,
    ensures
        ((pow(n, h) % p) * (pow(n, h) % p)) % p == pow(n, h + h) % p,
{
    lemma_mul_mod_noop(pow(n, h), pow(n, h), p);
    lemma_pow_adds(n, h, h);
}

/// From `r^2 = n t` the products `r b` and `t b^2` keep the relation.
proof fn lemma_ts_step(n: int, p: int, r: int, t: int, b: int)
    requires
        p > 0,
        (r * r) % p == (n * t) % p,
    ensures
        (((r * b) % p) * ((r * b) % p)) % p == (n * ((t * ((b * b) % p)) % p)) % p,
{
    let bb = b * b;
    lemma_mul_mod_noop(r * b, r * b, p);
    assert((r * b) * (r * b) == (r * r) * (b * b)) by (nonlinear_arith);
    lemma_mul_mod_noop_left(r * r, bb, p);
    lemma_mul_mod_noop_left(n * t, bb, p);
    assert((n * t) * (b * b) == n * (t * (b * b))) by (nonlinear_arith);
    lemma_mul_mod_noop_right(t, bb, p);
    lemma_mul_mod_noop_right(n, t * (bb % p), p);
    lemma_mul_mod_noop_right(n, t * bb, p);
}

/// `c` fails Euler's criterion modulo `p`.
pub open spec fn is_non_residue(c: int, p: int) -> bool {
    legendre(c, p) != 0 && legendre(c, p) != 1
}

/// Squaring `x^(2^i)` gives `x^(2^(i+1))`, modulo `p`.
proof fn lemma_square_step(x: int, i: nat, p: int)
    requires
        p > 0,
    ensures
        ((pow(x, pow2(i)) % p) * (pow(x, pow2(i)) % p)) % p == pow(x, pow2(i + 1)) % p,
{
    lemma_sq_of_pow(x, pow2(i), p);
    lemma_pow2_unfold(i + 1);
}

/// `((x^a mod p)^b) mod p = x^(a b) mod p`.
proof fn lemma_pow_of_reduced_pow(x: int, a: nat, b: nat, p: int)
    requires
        p > 0,
    ensures
        pow(pow(x, a) % p, b) % p == pow(x, a * b) % p,
{
    lemma_pow_mod_noop(pow(x, a), b, p);
    lemma_pow_multiplies(x, a, b);
}

/// A value that fails Euler's criterion modulo an odd prime has Legendre value `p - 1`.
proof fn lemma_non_residue_is_minus_one(c: int, p: int)
    requires
        is_prime(p),
        p % 2 == 1,
        is_non_residue(c, p),
    ensures
        legendre(c, p) == p - 1,
{
    let e = ((p - 1) / 2) as nat;
    lemma_pow_mod_noop(c, e, p);
    if c % p == 0 {
        lemma0_pow(e);
        lemma_small_mod(0, p as nat);
    }
    lemma_fermat(c, p);
    lemma_sq_of_pow(c, e, p);
    lemma_square_roots_of_one(legendre(c, p), p);
}

/// Tonelli–Shanks with a caller-supplied candidate non-residue `c0`.
///
/// A returned root is always a true square root. For a prime `p`, an input
/// with a square root and a candidate without one, the search always finishes
/// with a root.
pub fn tonelli_shanks_with(n: u128, p: u128, c0: u128) -> (r: Result<u128, EcError>)
    requires
        valid_modulus(p as int),
    ensures
        n % p == 0 ==> r == Ok::<u128, EcError>(0),
        is_prime(p as int) && has_sqrt(n as int, p as int) && !has_sqrt(c0 as int, p as int)
            ==> r is Ok,
        !has_sqrt(n as int, p as int) ==> r == Err::<u128, EcError>(EcError::NonResidue),
        match r {
            Ok(root) => is_sqrt(root as int, n as int, p as int),
            Err(e) => e == EcError::NonResidue,
        },
{
    let ghost pi = p as int;
    let ghost good = is_prime(pi) && legendre(n as int, pi) == 1 && is_non_residue(c0 as int, pi);
    proof {
        if is_prime(pi) && has_sqrt(n as int, pi) && !has_sqrt(c0 as int, pi) && n % p != 0 {
            lemma_sqrt_passes_criterion(n as int, pi);
            lemma_non_square_criterion(c0 as int, pi);
        }
    }
    if n % p == 0 {
        proof {
            lemma_small_mod(0, p as nat);
            assert(is_sqrt(0, n as int, pi));
        }
        return Ok(0);
    }
    // p - 1 = q * 2^s with q odd

    let mut q: u128 = p - 1;
    let mut s: u128 = 0;
    proof {
        lemma_pow2(0);
        lemma_pow0(2);
    }
    while q % 2 == 0
        invariant
            1 <= q,
            s + q <= p - 1,
            q * pow2(s as nat) == p - 1,
            s == 0 ==> q == p - 1,
        decreases q,
    {
        proof {
            lemma_pow2_unfold((s + 1) as nat);
            assert((q / 2) * pow2((s + 1) as nat) == q * pow2(s as nat)) by (nonlinear_arith)
                requires
                    q % 2 == 0,
                    pow2((s + 1) as nat) == 2 * pow2(s as nat),
            ;
        }
        q = q / 2;
        s = s + 1;
    }
    let h: u128 = (q + 1) / 2;
    let mut m: u128 = s;
    let mut c: u128 = power(c0, q, p);
    let mut t: u128 = power(n, q, p);
    let mut r: u128 = power(n, h, p);
    proof {
        lemma_sq_of_pow(n as int, h as nat, p as int);
        assert(h + h == q + 1);
        lemma_pow_adds(n as int, 1, q as nat);
        lemma_pow1(n as int);
        lemma_mul_mod_noop_right(n as int, pow(n as int, q as nat), p as int);
        if good {
            let k = (s - 1) as nat;
            lemma_pow2_unfold(s as nat);
            assert(q * pow2(k) == (p - 1) / 2) by (nonlinear_arith)
                requires
                    q * pow2(s as nat) == p - 1,
                    pow2(s as nat) == 2 * pow2(k),
            ;
            lemma_pow_of_reduced_pow(c0 as int, q as nat, pow2(k), pi);
            lemma_pow_of_reduced_pow(n as int, q as nat, pow2(k), pi);
            lemma_non_residue_is_minus_one(c0 as int, pi);
        }
    }
    loop
        invariant
            valid_modulus(p as int),
            pi == p,
            n % p != 0,
            r < p,
            t < p,
            c < p,
            (r * r) % (p as int) == (n * t) % (p as int),
            good == (is_prime(pi) && legendre(n as int, pi) == 1 && is_non_residue(c0 as int, pi)),
            is_prime(pi) && has_sqrt(n as int, pi) && !has_sqrt(c0 as int, pi) ==> good,
            good ==> 1 <= m,
            good ==> pow(c as int, pow2((m - 1) as nat)) % pi == pi - 1,
            good ==> pow(t as int, pow2((m - 1) as nat)) % pi == 1,
        decreases m,
    {
        if t == 1 {
            proof {
                lemma_small_mod(1, p as nat);
                assert(is_sqrt(r as int, n as int, pi));
            }
            return Ok(r);
        }
        // least i with t^(2^i) = 1

        let mut i: u128 = 0;
        let mut sq: u128 = t;
        proof {
            lemma_pow2(0);
            lemma_pow0(2);
            lemma_pow1(t as int);
            lemma_small_mod(t as nat, p as nat);
        }
        while i < m && sq != 1
            invariant
                i <= m,
                p > 0,
                pi == p,
                sq == pow(t as int, pow2(i as nat)) % pi,
                good ==> 1 <= m,
                good ==> pow(t as int, pow2((m - 1) as nat)) % pi == 1,
                good ==> i <= m - 1,
                i >= 1 ==> pow(t as int, pow2((i - 1) as nat)) % pi != 1,
            decreases m - i,
        {
            proof {
                lemma_square_step(t as int, i as nat, pi);
            }
            sq = mul_mod(sq, sq, p);
            i = i + 1;
        }
        if i == m {
            return Err(EcError::NonResidue);
        }
        let ghost u = pow(t as int, pow2((i - 1) as nat)) % pi;
        proof {
            if good {
                lemma_pow1(t as int);
                lemma_pow2(0);
                lemma_pow0(2);
                lemma_small_mod(t as nat, p as nat);
                lemma_square_step(t as int, (i - 1) as nat, pi);
                lemma_square_roots_of_one(u, pi);
            }
        }
        // b = c^(2^(m - i - 1))

        let mut b: u128 = c;
        let mut j: u128 = i + 1;
        proof {
            lemma_pow2(0);
            lemma_pow0(2);
            lemma_pow1(c as int);
            lemma_small_mod(c as nat, p as nat);
        }
        while j < m
            invariant
                i + 1 <= j <= m,
                p > 0,
                pi == p,
                b == pow(c as int, pow2((j - i - 1) as nat)) % pi,
            decreases m - j,
        {
            proof {
                lemma_square_step(c as int, (j - i - 1) as nat, pi);
            }
            b = mul_mod(b, b, p);
            j = j + 1;
        }
        proof {
            lemma_ts_step(n as int, p as int, r as int, t as int, b as int);
        }
        let ghost (c_old, t_old) = (c as int, t as int);
        m = i;
        c = mul_mod(b, b, p);
        t = mul_mod(t, c, p);
        r = mul_mod(r, b, p);
        proof {
            if good {
                let k = (i - 1) as nat;
                let e = (j - i - 1) as nat;
                // b^(2^i) = c^(2^(m-1)) = -1
                lemma_pow_of_reduced_pow(c_old, pow2(e), pow2(i as nat), pi);
                lemma_pow2_adds(e, i as nat);
                assert(b as int == pow(c_old, pow2(e)) % pi);
                // new c = b^2, so c^(2^(i-1)) = b^(2^i)
                lemma_square_is_pow2(b as int);
                lemma_pow2_unfold(1);
                lemma_pow2(0);
                lemma_pow0(2);
                lemma_pow_of_reduced_pow(b as int, pow2(1), pow2(k), pi);
                lemma_pow2_adds(1, k);
                // new t = t c, so t^(2^(i-1)) = (-1) (-1) = 1
                lemma_pow_mod_noop(t_old * c, pow2(k), pi);
                lemma_pow_distributes(t_old, c as int, pow2(k));
                lemma_mul_mod_noop(pow(t_old, pow2(k)), pow(c as int, pow2(k)), pi);
                lemma_minus_one_squared(pi);
            }
        }
    }
}

/// For `p = 3 (mod 4)` and `z` with Legendre value 1, `z^((p+1)/4)` is a square root of `z`.
proof fn lemma_closed_form_root(z: int, p: int)
    requires
        p >= 3,
        p % 4 == 3,
        legendre(z, p) == 1,
    ensures
        is_sqrt(pow(z, ((p + 1) / 4) as nat) % p, z, p),
{
    let e = ((p + 1) / 4) as nat;
    let ee = ((p - 1) / 2) as nat;
    lemma_sq_of_pow(z, e, p);
    assert(e + e == ee + 1);
    lemma_pow_adds(z, ee, 1);
    lemma_pow1(z);
    lemma_mul_mod_noop_left(pow(z, ee), z, p);
    lemma_small_mod(1, p as nat);
}

/// Tonelli–Shanks: draws random candidates until one fails Euler's criterion,
/// then runs the search with it.
pub fn tonelli_shanks(n: u128, p: u128) -> (r: Result<u128, EcError>)
    requires
        valid_modulus(p as int),
    ensures
        n % p == 0 ==> r == Ok::<u128, EcError>(0),
        is_prime(p as int) && has_sqrt(n as int, p as int) ==> (r is Ok || r == Err::<
            u128,
            EcError,
        >(EcError::SamplingExhausted)),
        !has_sqrt(n as int, p as int) ==> r is Err,
        match r {
            Ok(root) => is_sqrt(root as int, n as int, p as int),
            Err(e) => e == EcError::NonResidue || e == EcError::SamplingExhausted,
        },
{
    if n % p == 0 {
        proof {
            lemma_small_mod(0, p as nat);
            assert(is_sqrt(0, n as int, p as int));
        }
        return Ok(0);
    }
    let mut attempt: u32 = 0;
    while attempt < SAMPLE_LIMIT
        invariant
            valid_modulus(p as int),
            n % p != 0,
        decreases SAMPLE_LIMIT - attempt,
    {
        let c = random_below(p);
        if !quadratic_residue(c, p) {
            proof {
                if is_prime(p as int) && has_sqrt(c as int, p as int) {
                    lemma_sqrt_passes_criterion(c as int, p as int);
                }
            }
            return tonelli_shanks_with(n, p, c);
        }
        attempt = attempt + 1;
    }
    Err(EcError::SamplingExhausted)
}

/// A square root of `z` modulo `p`, by a closed form when `p ≡ 3 (mod 4)` and by
/// Tonelli–Shanks otherwise. Inputs that fail Euler's criterion are rejected.
pub fn mod_sqrt(z: u128, p: u128) -> (r: Result<u128, EcError>)
    requires
        valid_modulus(p as int),
    ensures
        z % p == 0 ==> r == Ok::<u128, EcError>(0),
        z % p != 0 && legendre(z as int, p as int) != 1 ==> r == Err::<u128, EcError>(
            EcError::NonResidue,
        ),
        z % p != 0 && legendre(z as int, p as int) == 1 && p % 4 == 3 ==> r == Ok::<u128, EcError>(
            (pow(z as int, ((p + 1) / 4) as nat) % (p as int)) as u128,
        ),
        is_prime(p as int) && has_sqrt(z as int, p as int) ==> (r is Ok || r == Err::<
            u128,
            EcError,
        >(EcError::SamplingExhausted)),
        is_prime(p as int) && !has_sqrt(z as int, p as int) ==> r == Err::<u128, EcError>(
            EcError::NonResidue,
        ),
        match r {
            Ok(root) => is_sqrt(root as int, z as int, p as int),
            Err(e) => e == EcError::NonResidue || e == EcError::SamplingExhausted,
        },
{
    if z % p == 0 {
        proof {
            lemma_small_mod(0, p as nat);
            assert(is_sqrt(0, z as int, p as int));
        }
        return Ok(0);
    }
    if power(z, (p - 1) / 2, p) != 1 {
        proof {
            if is_prime(p as int) && has_sqrt(z as int, p as int) {
                lemma_sqrt_passes_criterion(z as int, p as int);
            }
        }
        return Err(EcError::NonResidue);
    }
    if p % 4 == 3 {
        let e: u128 = p / 4 + 1;
        let root = power(z, e, p);
        proof {
            lemma_closed_form_root(z as int, p as int);
        }
        return Ok(root);
    }
    proof {
        if is_prime(p as int) && !has_sqrt(z as int, p as int) {
            lemma_non_square_criterion(z as int, p as int);
        }
    }
    tonelli_shanks(z, p)
}

} // verus!
