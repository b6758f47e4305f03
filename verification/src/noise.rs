//! Configuration of the noise field that heights are drawn from.
//!
//! The field itself is a pure function from plane coordinates to a height:
//! several octaves of coherent noise combined by fractal brownian motion
//! and normalized to the unit interval.  Evaluating it is floating-point
//! work that a host performs; this module fixes the configuration that
//! makes the evaluation deterministic, carrying the real-valued parameters
//! as IEEE double bit patterns that the engine never reinterprets.

use vstd::prelude::*;

verus! {

/// Smallest bit pattern of a non-finite IEEE double: any pattern at or
/// above it is an infinity or a NaN, any positive pattern below it is a
/// positive finite number.
pub const F64_EXPONENT_MASK: u64 = 0x7FF0_0000_0000_0000;

/// A positive finite IEEE double, by its bit pattern.
pub open spec fn positive_finite_bits(bits: u64) -> bool {
    0 < bits < F64_EXPONENT_MASK
}

/// Tests that a bit pattern denotes a positive finite IEEE double.
pub fn is_positive_finite_bits(bits: u64) -> (ok: bool)
    ensures
        ok == positive_finite_bits(bits),
{
    0 < bits && bits < F64_EXPONENT_MASK
}

/// Immutable configuration of the noise field: the seed and the fractal
/// parameters.  Two fields with equal configuration sample identically,
/// which is what lets neighbouring chunks agree along their shared edges.
#[derive(Clone, Copy, PartialEq, Eq, Structural, Debug)]
pub struct NoiseConfig {
    /// Seed of the underlying coherent-noise source.
    pub seed: u64,
    /// Number of octaves combined; at least one.
    pub octaves: u32,
    /// Base frequency, as an IEEE double bit pattern.
    pub frequency_bits: u64,
    /// Frequency multiplier per octave, as an IEEE double bit pattern.
    pub lacunarity_bits: u64,
    /// Amplitude multiplier per octave, as an IEEE double bit pattern.
    pub persistence_bits: u64,
}

impl NoiseConfig {
    /// A usable configuration: at least one octave, and every fractal
    /// parameter a positive finite number.
    pub open spec fn valid(self) -> bool {
        &&& 1 <= self.octaves
        &&& positive_finite_bits(self.frequency_bits)
        &&& positive_finite_bits(self.lacunarity_bits)
        &&& positive_finite_bits(self.persistence_bits)
    }

    /// Tests that the configuration is usable.
    pub fn is_valid(&self) -> (ok: bool)
        ensures
            ok == self.valid(),
    {
        1 <= self.octaves && is_positive_finite_bits(self.frequency_bits)
            && is_positive_finite_bits(self.lacunarity_bits) && is_positive_finite_bits(
            self.persistence_bits,
        )
    }
}

} // verus!
