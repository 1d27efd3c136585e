use ecc_field::error::EcError;
use ecc_field::field::{mod_inv, mod_sub, mul_mod, power, quadratic_residue};
use ecc_field::sqrt::{mod_sqrt, tonelli_shanks, tonelli_shanks_with};

const SMALL_PRIMES: [u128; 8] = [3, 5, 7, 11, 13, 17, 41, 97];

#[test]
fn modular_inverse_test() {
    assert_eq!(3 * mod_inv(3, 13).unwrap() % 13, 1);
    assert_eq!(5 * mod_inv(5, 41).unwrap() % 41, 1);
}

#[test]
fn modular_subtraction_test() {
    assert_eq!(mod_sub(5, 11, 13), 7);
    assert_eq!(mod_sub(9, 2, 41), 7);
}

#[test]
fn quadriatic_residue_test() {
    assert_eq!(quadratic_residue(12, 13), true);
}

#[test]
fn tonelli_shanks_test() {
    let root = tonelli_shanks(5, 41).unwrap();
    assert_eq!(root == 13 || root == 28, true);
}

#[test]
fn modular_square_root_test() {
    let root = mod_sqrt(12, 13).unwrap();
    assert_eq!(power(root, 2, 13), 12);
}

#[test]
fn inverse_of_three_mod_thirteen_is_nine() {
    assert_eq!(mod_inv(3, 13), Ok(9));
}

#[test]
fn inverse_times_value_is_one_for_small_primes() {
    for &p in SMALL_PRIMES.iter() {
        for a in 1..p {
            let inv = mod_inv(a, p).unwrap();
            assert!(inv < p);
            assert_eq!(a * inv % p, 1, "a = {}, p = {}", a, p);
        }
    }
}

#[test]
fn inverse_of_multiple_of_modulus_fails() {
    assert_eq!(mod_inv(0, 13), Err(EcError::NoInverse));
    assert_eq!(mod_inv(26, 13), Err(EcError::NoInverse));
}

#[test]
fn power_values() {
    assert_eq!(power(3, 5, 13), 9);
    assert_eq!(power(7, 0, 13), 1);
    assert_eq!(power(20, 2, 13), 10);
    assert_eq!(power(2, 127, 1_000_000_007), 2u128.pow(127) % 1_000_000_007);
}

#[test]
fn mod_sub_reduces_large_operands() {
    assert_eq!(mod_sub(100, 3, 13), 6);
    assert_eq!(mod_sub(3, 100, 13), 7);
    assert_eq!(mod_sub(u128::MAX, 0, 13), u128::MAX % 13);
    assert_eq!(mod_sub(0, u128::MAX, 13), (13 - u128::MAX % 13) % 13);
}

#[test]
fn mul_mod_handles_full_width_operands() {
    let p: u128 = (1u128 << 127) - 1;
    assert_eq!(mul_mod(p - 1, p - 1, p), 1);
    assert_eq!(mul_mod(u128::MAX, 2, 1_000_000_007), (u128::MAX % 1_000_000_007) * 2 % 1_000_000_007);
    assert_eq!(mul_mod(12, 11, 13), 2);
}

#[test]
fn residue_test_matches_exhaustive_search() {
    for &p in SMALL_PRIMES.iter() {
        for z in 0..p {
            let has_root = (0..p).any(|y| y * y % p == z);
            assert_eq!(quadratic_residue(z, p), has_root, "z = {}, p = {}", z, p);
        }
    }
}

#[test]
fn square_roots_of_all_residues() {
    for &p in SMALL_PRIMES.iter() {
        for z in 0..p {
            if quadratic_residue(z, p) {
                let r = mod_sqrt(z, p).unwrap();
                assert!(r < p);
                assert_eq!(r * r % p, z, "z = {}, p = {}", z, p);
            }
        }
    }
}

#[test]
fn square_root_of_twelve_mod_thirteen() {
    let r = mod_sqrt(12, 13).unwrap();
    assert_eq!(r * r % 13, 12);
    assert!(r == 5 || r == 8);
}

#[test]
fn square_root_closed_form_mod_three_mod_four() {
    // 11 = 3 (mod 4): the root is 5^((11 + 1) / 4) = 5^3 = 4 (mod 11)
    assert_eq!(mod_sqrt(5, 11), Ok(4));
    assert_eq!(mod_sqrt(0, 11), Ok(0));
    assert_eq!(mod_sqrt(22, 11), Ok(0));
}

#[test]
fn square_root_of_non_residue_fails() {
    assert_eq!(mod_sqrt(5, 13), Err(EcError::NonResidue));
    assert_eq!(mod_sqrt(2, 11), Err(EcError::NonResidue));
    assert_eq!(mod_sqrt(3, 41), Err(EcError::NonResidue));
}

#[test]
fn tonelli_shanks_with_a_known_non_residue() {
    // 3 is a non-residue mod 41
    let r = tonelli_shanks_with(5, 41, 3).unwrap();
    assert!(r == 13 || r == 28);
    assert_eq!(tonelli_shanks_with(0, 41, 3), Ok(0));
}

#[test]
fn tonelli_shanks_with_a_residue_candidate_fails() {
    assert_eq!(tonelli_shanks_with(5, 41, 1), Err(EcError::NonResidue));
}

#[test]
fn tonelli_shanks_on_non_residue_input_fails() {
    assert_eq!(tonelli_shanks_with(3, 41, 3), Err(EcError::NonResidue));
}

#[test]
fn square_roots_with_many_factors_of_two() {
    // 257 - 1 = 2^8 and 65537 - 1 = 2^16
    for &p in [97u128, 257, 65537].iter() {
        for y in [1u128, 2, 3, 10, 96].iter() {
            let z = y * y % p;
            let r = mod_sqrt(z, p).unwrap();
            assert_eq!(r * r % p, z, "z = {}, p = {}", z, p);
        }
    }
}

#[test]
fn square_roots_at_full_width() {
    // the largest prime below 2^128 (= 1 mod 4) and 2^127 - 1 (= 3 mod 4)
    let primes: [u128; 2] = [u128::MAX - 158, (1u128 << 127) - 1];
    for &p in primes.iter() {
        for &y in [2u128, 12345678901234567890, p - 3].iter() {
            let z = mul_mod(y, y, p);
            let r = mod_sqrt(z, p).unwrap();
            assert_eq!(mul_mod(r, r, p), z);
            assert!(r == y || r == p - y);
        }
        let inv = mod_inv(p - 5, p).unwrap();
        assert_eq!(mul_mod(p - 5, inv, p), 1);
    }
}
