use vstd::prelude::*;

verus! {

/// The ways an operation of this library can fail.
#[derive(Clone, Copy, Debug, PartialEq, Eq, Structural)]
pub enum EcError {
    /// The value has no multiplicative inverse: it is a multiple of the modulus.
    NoInverse,
    /// The value has no square root modulo the modulus.
    NonResidue,
    /// The modulus is too large for an exhaustive listing of the curve.
    ResourceExceeded,
    /// A random sampling loop used up its attempts without an acceptable draw.
    SamplingExhausted,
}

} // verus!
