//! Stable error categories corresponding to the exceptions of the
//! geological modelling engine whose behaviour this library keeps.
use vstd::prelude::*;

verus! {

/// A stable category for one engine exception type.
///
/// The category, rather than the historical English message, is intended for
/// programmatic matching. [`Error::message`] and
/// [`Error::surfe_exception_name`] retain the historical texts.
#[derive(Clone, Copy, Debug, Eq, Hash, PartialEq, Structural)]
#[non_exhaustive]
pub enum Error {
    NoInterfaceData,
    NoInterfaceIncrementPairs,
    NoPlanarData,
    InvalidInputData,
    GlobalAnisotropyFailure,
    AnisotropicKernelCreationFailure,
    BasisFunctionSetupFailure,
    ModifiedKernelCreationFailure,
    LagrangianBasisCreationFailure,
    LinearSolverFailure,
    PredictorCorrectorSolverFailure,
    LoqoSolverFailure,
    InterpolationMatrixFailure,
    EqualityVectorFailure,
    InequalityVectorFailure,
    InterfaceIsoValueUpdateFailure,
    InterpolantComputationFailure,
    MissingInterpolant,
    UnknownRbf,
    InterpolantNeedsUpdate,
    UnknownModel,
    SpatialParametersFailure,
    IncorrectArrayDimensions,
}

/// The exact exception class name mapped to a category.
pub open spec fn exception_name_of(error: Error) -> Seq<char> {
    match error {
        Error::NoInterfaceData => "nointerfacedata"@,
        Error::NoInterfaceIncrementPairs => "nointerfaceincrementpairs"@,
        Error::NoPlanarData => "noplanardata"@,
        Error::InvalidInputData => "invalidinputdata"@,
        Error::GlobalAnisotropyFailure => "failurecomputingglobalanisotropy"@,
        Error::AnisotropicKernelCreationFailure => "failurecreatinganisotropickernel"@,
        Error::BasisFunctionSetupFailure => "failuresettingupbasisfunctions"@,
        Error::ModifiedKernelCreationFailure => "failurecreatingmodifiedkernel"@,
        Error::LagrangianBasisCreationFailure => "failurecreatinglagrangianpolynomialbasis"@,
        Error::LinearSolverFailure => "linearsolverfailure"@,
        Error::PredictorCorrectorSolverFailure => "pcquadratricsolverfailure"@,
        Error::LoqoSolverFailure => "loqoquadratricsolverfailure"@,
        Error::InterpolationMatrixFailure => "errorcomputinginterpolationmatrix"@,
        Error::EqualityVectorFailure => "errorcomputingequalityvector"@,
        Error::InequalityVectorFailure => "errorcomputinginequalityvector"@,
        Error::InterfaceIsoValueUpdateFailure => "errorupdatinginterfaceisovalues"@,
        Error::InterpolantComputationFailure => "errorcomputinginterpolant"@,
        Error::MissingInterpolant => "missinginterpolant"@,
        Error::UnknownRbf => "unknownrbf"@,
        Error::InterpolantNeedsUpdate => "interpolantneedsupdate"@,
        Error::UnknownModel => "unknownmodellingmode"@,
        Error::SpatialParametersFailure => "problemcomputingspatialparameters"@,
        Error::IncorrectArrayDimensions => "arrayhasincorrectdimensions"@,
    }
}

/// The exact exception text mapped to a category.
pub open spec fn message_of(error: Error) -> Seq<char> {
    match error {
        Error::NoInterfaceData => "No interface data"@,
        Error::NoInterfaceIncrementPairs => "There are no interface increment pairs"@,
        Error::NoPlanarData => "No planar data"@,
        Error::InvalidInputData => "Invalid input data as determined by check_input_data()"@,
        Error::GlobalAnisotropyFailure => "Failure computing global anisotropy because there are less than 2 planar constraints"@,
        Error::AnisotropicKernelCreationFailure => "Failure creating an anisotropic kernel"@,
        Error::BasisFunctionSetupFailure => "Failure setting up basis functions"@,
        Error::ModifiedKernelCreationFailure => "Failure creating modified kernel"@,
        Error::LagrangianBasisCreationFailure => "Failure creating Lagrangian Polynomial basis"@,
        Error::LinearSolverFailure => "Eigen's linear solver failed"@,
        Error::PredictorCorrectorSolverFailure => "Predictor-Corrector Quadratic Solver failure"@,
        Error::LoqoSolverFailure => "LOQO Quadratic Solver failure"@,
        Error::InterpolationMatrixFailure => "Error computing interpolation matrix"@,
        Error::EqualityVectorFailure => "Error computing equality vector"@,
        Error::InequalityVectorFailure => "Error computing inequality vector"@,
        Error::InterfaceIsoValueUpdateFailure => "Error updating interface iso values"@,
        Error::InterpolantComputationFailure => "Error computing Interpolant"@,
        Error::MissingInterpolant => "Interpolant has not yet been computed"@,
        Error::UnknownRbf => "Entered RBF kernel name is unknown"@,
        Error::InterpolantNeedsUpdate => "Constraints or Parameters have changed please recompute/update interpolant"@,
        Error::UnknownModel => "Modelling mode code unknown; choose 1 - 5"@,
        Error::SpatialParametersFailure => "Problem computing spatial parameters"@,
        Error::IncorrectArrayDimensions => "Input array has incorrect dimensions!"@,
    }
}

/// The messages of `chain`, in order, separated by `", "`.
pub open spec fn joined_messages(chain: Seq<Error>) -> Seq<char>
    decreases chain.len(),
{
    if chain.len() == 0 {
        Seq::empty()
    } else if chain.len() == 1 {
        message_of(chain[0])
    } else {
        joined_messages(chain.drop_last()) + ", "@ + message_of(chain.last())
    }
}

/// The text that the engine's exception-chain wrapper produces.
pub open spec fn exception_chain_text(chain: Seq<Error>) -> Seq<char> {
    "Exceptions thrown: "@ + joined_messages(chain)
}

/// Every category, in declaration order.
pub open spec fn all_errors() -> Seq<Error> {
    seq![
        Error::NoInterfaceData,
        Error::NoInterfaceIncrementPairs,
        Error::NoPlanarData,
        Error::InvalidInputData,
        Error::GlobalAnisotropyFailure,
        Error::AnisotropicKernelCreationFailure,
        Error::BasisFunctionSetupFailure,
        Error::ModifiedKernelCreationFailure,
        Error::LagrangianBasisCreationFailure,
        Error::LinearSolverFailure,
        Error::PredictorCorrectorSolverFailure,
        Error::LoqoSolverFailure,
        Error::InterpolationMatrixFailure,
        Error::EqualityVectorFailure,
        Error::InequalityVectorFailure,
        Error::InterfaceIsoValueUpdateFailure,
        Error::InterpolantComputationFailure,
        Error::MissingInterpolant,
        Error::UnknownRbf,
        Error::InterpolantNeedsUpdate,
        Error::UnknownModel,
        Error::SpatialParametersFailure,
        Error::IncorrectArrayDimensions,
    ]
}

impl Error {
    /// Every exception category declared by the engine, in declaration order.
    pub fn all() -> (all: [Error; 23])
        ensures
            all@ == all_errors(),
    {
        [
            Error::NoInterfaceData,
            Error::NoInterfaceIncrementPairs,
            Error::NoPlanarData,
            Error::InvalidInputData,
            Error::GlobalAnisotropyFailure,
            Error::AnisotropicKernelCreationFailure,
            Error::BasisFunctionSetupFailure,
            Error::ModifiedKernelCreationFailure,
            Error::LagrangianBasisCreationFailure,
            Error::LinearSolverFailure,
            Error::PredictorCorrectorSolverFailure,
            Error::LoqoSolverFailure,
            Error::InterpolationMatrixFailure,
            Error::EqualityVectorFailure,
            Error::InequalityVectorFailure,
            Error::InterfaceIsoValueUpdateFailure,
            Error::InterpolantComputationFailure,
            Error::MissingInterpolant,
            Error::UnknownRbf,
            Error::InterpolantNeedsUpdate,
            Error::UnknownModel,
            Error::SpatialParametersFailure,
            Error::IncorrectArrayDimensions,
        ]
    }

    /// The exact exception class mapped to this category.
    pub fn surfe_exception_name(self) -> (name: &'static str)
        ensures
            name@ == exception_name_of(self),
    {
        match self {
            Error::NoInterfaceData => "nointerfacedata",
            Error::NoInterfaceIncrementPairs => "nointerfaceincrementpairs",
            Error::NoPlanarData => "noplanardata",
            Error::InvalidInputData => "invalidinputdata",
            Error::GlobalAnisotropyFailure => "failurecomputingglobalanisotropy",
            Error::AnisotropicKernelCreationFailure => "failurecreatinganisotropickernel",
            Error::BasisFunctionSetupFailure => "failuresettingupbasisfunctions",
            Error::ModifiedKernelCreationFailure => "failurecreatingmodifiedkernel",
            Error::LagrangianBasisCreationFailure => "failurecreatinglagrangianpolynomialbasis",
            Error::LinearSolverFailure => "linearsolverfailure",
            Error::PredictorCorrectorSolverFailure => "pcquadratricsolverfailure",
            Error::LoqoSolverFailure => "loqoquadratricsolverfailure",
            Error::InterpolationMatrixFailure => "errorcomputinginterpolationmatrix",
            Error::EqualityVectorFailure => "errorcomputingequalityvector",
            Error::InequalityVectorFailure => "errorcomputinginequalityvector",
            Error::InterfaceIsoValueUpdateFailure => "errorupdatinginterfaceisovalues",
            Error::InterpolantComputationFailure => "errorcomputinginterpolant",
            Error::MissingInterpolant => "missinginterpolant",
            Error::UnknownRbf => "unknownrbf",
            Error::InterpolantNeedsUpdate => "interpolantneedsupdate",
            Error::UnknownModel => "unknownmodellingmode",
            Error::SpatialParametersFailure => "problemcomputingspatialparameters",
            Error::IncorrectArrayDimensions => "arrayhasincorrectdimensions",
        }
    }

    /// The exact `what()` text from the mapped exception.
    pub fn message(self) -> (text: &'static str)
        ensures
            text@ == message_of(self),
    {
        match self {
            Error::NoInterfaceData => "No interface data",
            Error::NoInterfaceIncrementPairs => "There are no interface increment pairs",
            Error::NoPlanarData => "No planar data",
            Error::InvalidInputData => "Invalid input data as determined by check_input_data()",
            Error::GlobalAnisotropyFailure => "Failure computing global anisotropy because there are less than 2 planar constraints",
            Error::AnisotropicKernelCreationFailure => "Failure creating an anisotropic kernel",
            Error::BasisFunctionSetupFailure => "Failure setting up basis functions",
            Error::ModifiedKernelCreationFailure => "Failure creating modified kernel",
            Error::LagrangianBasisCreationFailure => "Failure creating Lagrangian Polynomial basis",
            Error::LinearSolverFailure => "Eigen's linear solver failed",
            Error::PredictorCorrectorSolverFailure => "Predictor-Corrector Quadratic Solver failure",
            Error::LoqoSolverFailure => "LOQO Quadratic Solver failure",
            Error::InterpolationMatrixFailure => "Error computing interpolation matrix",
            Error::EqualityVectorFailure => "Error computing equality vector",
            Error::InequalityVectorFailure => "Error computing inequality vector",
            Error::InterfaceIsoValueUpdateFailure => "Error updating interface iso values",
            Error::InterpolantComputationFailure => "Error computing Interpolant",
            Error::MissingInterpolant => "Interpolant has not yet been computed",
            Error::UnknownRbf => "Entered RBF kernel name is unknown",
            Error::InterpolantNeedsUpdate => "Constraints or Parameters have changed please recompute/update interpolant",
            Error::UnknownModel => "Modelling mode code unknown; choose 1 - 5",
            Error::SpatialParametersFailure => "Problem computing spatial parameters",
            Error::IncorrectArrayDimensions => "Input array has incorrect dimensions!",
        }
    }

    /// Reproduce the message format of the engine's exception-chain wrapper.
    ///
    /// This is diagnostic compatibility only; callers should match the typed
    /// [`Error`] values instead of parsing the returned text.
    pub fn format_surfe_exception_chain(chain: &[Error]) -> (text: String)
        ensures
            text@ == exception_chain_text(chain@),
    {
        let mut text = String::from_str("Exceptions thrown: ");
        let mut index: usize = 0;
        while index < chain.len()
            invariant
                index <= chain.len(),
                text@ == "Exceptions thrown: "@ + joined_messages(chain@.take(index as int)),
            decreases chain.len() - index,
        {
            let ghost before = chain@.take(index as int);
            let ghost after = chain@.take(index + 1);
            assert(after.drop_last() == before);
            assert(after.last() == chain@[index as int]);
            if index > 0 {
                text.append(", ");
            }
            text.append(chain[index].message());
            index = index + 1;
        }
        assert(chain@.take(chain.len() as int) == chain@);
        text
    }
}

} // verus!
