//! The rounding environment an arithmetic operation runs under.
use vstd::prelude::*;

verus! {

/// How an exact result is brought to the destination precision.
#[derive(Copy, Clone, Debug, PartialEq, Eq, Structural)]
pub enum RoundingMode {
    /// Round to the nearest representable value; on a tie, pick the one
    /// whose least-significant bit is even.
    TiesToEven,
    /// Round to the nearest representable value; on a tie, pick the one
    /// with the larger magnitude.
    TiesToAway,
    /// Round to the nearest representable value no less than the result.
    TowardPositive,
    /// Round to the nearest representable value no greater than the result.
    TowardNegative,
    /// Round to the nearest representable value of no greater magnitude.
    TowardZero,
}

/// Settings a floating-point operation runs under: the rounding mode and
/// whether subnormal values are flushed to zero. Passed explicitly into
/// every arithmetic call; there is no ambient rounding state.
#[derive(Copy, Clone, Debug, PartialEq, Eq, Structural)]
pub struct FloatingPointEnv {
    pub rounding_mode: RoundingMode,
    pub flush_subnormals_to_zero: bool,
}

} // verus!
