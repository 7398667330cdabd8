//! Kernel configuration visible at the supported public fitting boundary.
use crate::parameters::{Axis, FirstDerivative, SecondDerivative};
use vstd::prelude::*;

verus! {

/// A resolved kernel kind.
#[derive(Debug, Clone, Copy, PartialEq, Eq, Hash, Structural)]
#[non_exhaustive]
pub enum KernelKind {
    /// The scale-free three-dimensional Cubic kernel `r³` with complete Π₁.
    Cubic,
}

/// An immutable kernel configuration.
#[derive(Debug, Clone, Copy, PartialEq, Eq, Structural)]
pub struct KernelConfig {
    kind: KernelKind,
}

impl KernelConfig {
    /// The resolved kernel kind.
    pub closed spec fn kind_spec(self) -> KernelKind {
        self.kind
    }

    /// Selects the supported Cubic Equality kernel contract.
    pub fn cubic() -> (config: Self)
        ensures
            config.kind_spec() == KernelKind::Cubic,
    {
        Self { kind: KernelKind::Cubic }
    }

    /// A configuration is determined by its kind, so `cubic()` and
    /// `default()` give the same configuration.
    pub proof fn lemma_kind_determines(a: Self, b: Self)
        ensures
            a.kind_spec() == b.kind_spec() ==> a == b,
    {
    }

    /// Returns the resolved kernel kind.
    pub fn kind(&self) -> (kind: KernelKind)
        ensures
            kind == self.kind_spec(),
    {
        self.kind
    }
}

impl Default for KernelConfig {
    fn default() -> (config: Self)
        ensures
            config.kind_spec() == KernelKind::Cubic,
    {
        Self::cubic()
    }
}

/// A rejected FieldEnergy normalization.
#[derive(Debug, Clone, Copy, PartialEq, Eq, Structural)]
#[non_exhaustive]
pub enum FieldEnergyNormalizationError {
    /// The normalization was NaN or infinite.
    NotFinite,
    /// The normalization was zero or negative.
    NotPositive,
}

/// The display text of a normalization failure.
pub open spec fn normalization_error_text(error: FieldEnergyNormalizationError) -> Seq<char> {
    match error {
        FieldEnergyNormalizationError::NotFinite => "FieldEnergy normalization is not finite"@,
        FieldEnergyNormalizationError::NotPositive => "FieldEnergy normalization is not positive"@,
    }
}

impl FieldEnergyNormalizationError {
    /// The display text of this failure.
    pub fn message(self) -> (text: &'static str)
        ensures
            text@ == normalization_error_text(self),
    {
        match self {
            FieldEnergyNormalizationError::NotFinite => "FieldEnergy normalization is not finite",
            FieldEnergyNormalizationError::NotPositive => "FieldEnergy normalization is not positive",
        }
    }
}

/// A kernel evaluation the selected kernel does not provide.
#[derive(Clone, Copy, Debug, Eq, PartialEq, Structural)]
#[non_exhaustive]
pub enum KernelError {
    /// The linear-radius kernel implements values but not derivatives.
    LinearDerivativeUnavailable,
}

impl KernelError {
    /// The display text of this failure.
    pub fn message(self) -> (text: &'static str)
        ensures
            text@ == "the frozen linear-radius kernel does not implement derivatives"@,
    {
        match self {
            KernelError::LinearDerivativeUnavailable => "the frozen linear-radius kernel does not implement derivatives",
        }
    }
}

/// The coordinate position of an axis.
pub open spec fn axis_position(axis: Axis) -> int {
    match axis {
        Axis::X => 0,
        Axis::Y => 1,
        Axis::Z => 2,
    }
}

/// The axis pair of a second derivative component: the component `DaDb`
/// differentiates along `a`, then along `b`.
pub open spec fn second_derivative_pair(component: SecondDerivative) -> (Axis, Axis) {
    match component {
        SecondDerivative::DxDx => (Axis::X, Axis::X),
        SecondDerivative::DxDy => (Axis::X, Axis::Y),
        SecondDerivative::DxDz => (Axis::X, Axis::Z),
        SecondDerivative::DyDx => (Axis::Y, Axis::X),
        SecondDerivative::DyDy => (Axis::Y, Axis::Y),
        SecondDerivative::DyDz => (Axis::Y, Axis::Z),
        SecondDerivative::DzDx => (Axis::Z, Axis::X),
        SecondDerivative::DzDy => (Axis::Z, Axis::Y),
        SecondDerivative::DzDz => (Axis::Z, Axis::Z),
    }
}

/// The coordinate position of an axis: `x`, `y`, `z` are 0, 1, 2.
pub fn axis_index(axis: Axis) -> (index: usize)
    ensures
        index == axis_position(axis),
{
    match axis {
        Axis::X => 0,
        Axis::Y => 1,
        Axis::Z => 2,
    }
}

/// The axes of a second derivative component, in differentiation order.
pub fn second_derivative_axes(component: SecondDerivative) -> (axes: (Axis, Axis))
    ensures
        axes == second_derivative_pair(component),
{
    match component {
        SecondDerivative::DxDx => (Axis::X, Axis::X),
        SecondDerivative::DxDy => (Axis::X, Axis::Y),
        SecondDerivative::DxDz => (Axis::X, Axis::Z),
        SecondDerivative::DyDx => (Axis::Y, Axis::X),
        SecondDerivative::DyDy => (Axis::Y, Axis::Y),
        SecondDerivative::DyDz => (Axis::Y, Axis::Z),
        SecondDerivative::DzDx => (Axis::Z, Axis::X),
        SecondDerivative::DzDy => (Axis::Z, Axis::Y),
        SecondDerivative::DzDz => (Axis::Z, Axis::Z),
    }
}

/// The axis of a first derivative component.
pub fn first_derivative_axis(component: FirstDerivative) -> (axis: Axis)
    ensures
        axis == (match component {
            FirstDerivative::Dx => Axis::X,
            FirstDerivative::Dy => Axis::Y,
            FirstDerivative::Dz => Axis::Z,
        }),
{
    match component {
        FirstDerivative::Dx => Axis::X,
        FirstDerivative::Dy => Axis::Y,
        FirstDerivative::Dz => Axis::Z,
    }
}

/// Distinct axes have distinct positions, and distinct second derivative
/// components have distinct axis pairs: every pair of axes names exactly one
/// component.
pub proof fn lemma_derivative_labels_distinct(a: Axis, b: Axis, p: SecondDerivative, q: SecondDerivative)
    ensures
        axis_position(a) == axis_position(b) ==> a == b,
        0 <= axis_position(a) < 3,
        second_derivative_pair(p) == second_derivative_pair(q) ==> p == q,
        exists|c: SecondDerivative| #[trigger] second_derivative_pair(c) == (a, b),
{
    let c = match (a, b) {
        (Axis::X, Axis::X) => SecondDerivative::DxDx,
        (Axis::X, Axis::Y) => SecondDerivative::DxDy,
        (Axis::X, Axis::Z) => SecondDerivative::DxDz,
        (Axis::Y, Axis::X) => SecondDerivative::DyDx,
        (Axis::Y, Axis::Y) => SecondDerivative::DyDy,
        (Axis::Y, Axis::Z) => SecondDerivative::DyDz,
        (Axis::Z, Axis::X) => SecondDerivative::DzDx,
        (Axis::Z, Axis::Y) => SecondDerivative::DzDy,
        (Axis::Z, Axis::Z) => SecondDerivative::DzDz,
    };
    assert(second_derivative_pair(c) == (a, b));
}

} // verus!
