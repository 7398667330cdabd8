//! Safe-construction failures of constraint geometry.
use vstd::prelude::*;

verus! {

/// Safe-construction failures for constraint geometry.
///
/// Non-finite coordinates and degenerate directions are rejected instead of
/// being carried into later computations.
#[derive(Clone, Copy, Debug, Eq, PartialEq, Structural)]
#[non_exhaustive]
pub enum ConstraintError {
    /// A coordinate, scalar, angle, or vector component is NaN or infinite.
    NonFiniteInput,
    /// A planar normal has no direction.
    ZeroNormal,
    /// A tangent vector has no direction.
    ZeroTangent,
    /// `acos(normal.z)` would be outside its real-valued domain.
    NormalZOutOfRange,
    /// Strike/dip conversion produced a zero or non-finite normal.
    DegenerateOrientation,
    /// Orientation input accepts only polarity codes 0 and 1.
    InvalidPolarity,
}

/// The display text of a construction failure.
pub open spec fn constraint_error_text(error: ConstraintError) -> Seq<char> {
    match error {
        ConstraintError::NonFiniteInput => "constraint input must be finite"@,
        ConstraintError::ZeroNormal => "planar normal must be non-zero"@,
        ConstraintError::ZeroTangent => "tangent vector must be non-zero"@,
        ConstraintError::NormalZOutOfRange => "planar normal z component must be in [-1, 1]"@,
        ConstraintError::DegenerateOrientation => "strike and dip produce a degenerate normal"@,
        ConstraintError::InvalidPolarity => "polarity must be 0 (upright) or 1 (overturned)"@,
    }
}

impl ConstraintError {
    /// The display text of this failure.
    pub fn message(self) -> (text: &'static str)
        ensures
            text@ == constraint_error_text(self),
    {
        match self {
            ConstraintError::NonFiniteInput => "constraint input must be finite",
            ConstraintError::ZeroNormal => "planar normal must be non-zero",
            ConstraintError::ZeroTangent => "tangent vector must be non-zero",
            ConstraintError::NormalZOutOfRange => "planar normal z component must be in [-1, 1]",
            ConstraintError::DegenerateOrientation => "strike and dip produce a degenerate normal",
            ConstraintError::InvalidPolarity => "polarity must be 0 (upright) or 1 (overturned)",
        }
    }
}

} // verus!
