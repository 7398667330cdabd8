//! Model kinds, Cartesian axes and the resolved internal counts that a
//! layout is built from.
use vstd::prelude::*;

verus! {

/// A Cartesian derivative axis.
#[derive(Clone, Copy, Debug, Eq, Hash, PartialEq, Structural)]
pub enum Axis {
    X,
    Y,
    Z,
}

/// The five modelling branches.
#[derive(Clone, Copy, Debug, Eq, Hash, PartialEq, Structural)]
pub enum ModelType {
    SingleSurface,
    LajaunieApproach,
    StratigraphicHorizons,
    ContinuousProperty,
    VectorField,
}

/// The solver family a resolved problem is handed to.
#[derive(Clone, Copy, Debug, Eq, Hash, PartialEq, Structural)]
pub enum SolverType {
    /// A linear equality system.
    Linear,
    /// A predictor-corrector quadratic program.
    PredictorCorrector,
    /// A LOQO quadratic program.
    Loqo,
}

/// The resolved counts and switches of one modelling problem.
#[derive(Clone, Copy, Debug, Eq, PartialEq, Structural)]
pub struct InternalParameters {
    pub problem_type: SolverType,
    pub modified_basis: bool,
    pub restricted_range: bool,
    pub n_inequality: usize,
    pub n_interface: usize,
    pub n_planar: usize,
    pub n_tangent: usize,
    pub n_constraints: usize,
    pub n_equality: usize,
    pub n_poly_terms: usize,
}

/// A first spatial derivative component.
#[derive(Clone, Copy, Debug, Eq, Hash, PartialEq, Structural)]
pub enum FirstDerivative {
    Dx,
    Dy,
    Dz,
}

/// A second spatial derivative component, first axis then second axis.
#[derive(Clone, Copy, Debug, Eq, Hash, PartialEq, Structural)]
pub enum SecondDerivative {
    DxDx,
    DxDy,
    DxDz,
    DyDx,
    DyDy,
    DyDz,
    DzDx,
    DzDy,
    DzDz,
}

/// Which of the two kernel arguments a derivative is taken at.
#[derive(Clone, Copy, Debug, Eq, Hash, PartialEq, Structural)]
pub enum DerivativePoint {
    First,
    Second,
}

/// The display name of a model kind.
pub open spec fn model_name(model: ModelType) -> Seq<char> {
    match model {
        ModelType::SingleSurface => "SingleSurface"@,
        ModelType::LajaunieApproach => "LajaunieApproach"@,
        ModelType::StratigraphicHorizons => "StratigraphicHorizons"@,
        ModelType::ContinuousProperty => "ContinuousProperty"@,
        ModelType::VectorField => "VectorField"@,
    }
}

/// The debug name of a solver family.
pub open spec fn solver_name(solver: SolverType) -> Seq<char> {
    match solver {
        SolverType::Linear => "Linear"@,
        SolverType::PredictorCorrector => "PredictorCorrector"@,
        SolverType::Loqo => "Loqo"@,
    }
}

impl ModelType {
    /// The display name of this model kind.
    pub fn name(self) -> (name: &'static str)
        ensures
            name@ == model_name(self),
    {
        match self {
            ModelType::SingleSurface => "SingleSurface",
            ModelType::LajaunieApproach => "LajaunieApproach",
            ModelType::StratigraphicHorizons => "StratigraphicHorizons",
            ModelType::ContinuousProperty => "ContinuousProperty",
            ModelType::VectorField => "VectorField",
        }
    }
}

impl SolverType {
    /// The debug name of this solver family.
    pub fn name(self) -> (name: &'static str)
        ensures
            name@ == solver_name(self),
    {
        match self {
            SolverType::Linear => "Linear",
            SolverType::PredictorCorrector => "PredictorCorrector",
            SolverType::Loqo => "Loqo",
        }
    }
}

} // verus!
