use num_bigint::{BigUint, RandBigInt};
use num_traits::ToPrimitive;
use vstd::prelude::*;

verus! {

/// How many draws a random sampling loop makes before it gives up.
pub const SAMPLE_LIMIT: u32 = 256;

/// Relies on `RandBigInt::gen_biguint_range` over `rand::thread_rng()`: a
/// uniform value in `[0, bound)`; it panics only when the range is empty.
#[verifier::external_body]
pub(crate) fn random_below(bound: u128) -> (r: u128)
    requires
        bound > 0,
    ensures
        r < bound,
{
    let r = rand::thread_rng().gen_biguint_range(&BigUint::from(0u32), &BigUint::from(bound));
    r.to_u128().unwrap()
}

} // verus!
