//! Greedy call-chain audit and deterministic public-fit evidence.
//!
//! The public interpolation call stores a Greedy request but never runs the
//! Greedy loop. The audit below records, for each model kind, which hooks
//! have a substantive body, and that none is reachable from the public API.
use crate::parameters::ModelType;
use vstd::prelude::*;

verus! {

/// Source-level state of one model hook.
#[derive(Clone, Copy, Debug, Eq, Hash, PartialEq, Structural)]
pub enum GreedyHookBody {
    /// A substantive body exists, but has no call edge from the public API.
    Implemented,
    /// The override only returns success without doing any work.
    TodoStub,
}

/// Auditable Greedy hook classification for one model kind.
#[derive(Clone, Copy, Debug, Eq, Hash, PartialEq, Structural)]
pub struct GreedyModelAudit {
    pub model: ModelType,
    /// Model constructed by the method factory if the Greedy loop is invoked
    /// directly.
    pub greedy_factory_model: ModelType,
    /// Always false: the public interpolation call has no call edge to the
    /// Greedy loop for any model kind.
    pub reachable_from_surfe_api: bool,
    pub minimal: GreedyHookBody,
    pub residual: GreedyHookBody,
    pub append: GreedyHookBody,
}

/// Why a public fitted-model Greedy trace stopped.
#[derive(Clone, Copy, Debug, Eq, Hash, PartialEq, Structural)]
pub enum GreedyStopReason {
    /// The public interpolation call bypasses the Greedy loop.
    NotCalledBySurfeApi,
}

/// The model kinds in declaration order.
pub open spec fn model_at(position: int) -> ModelType {
    if position == 0 {
        ModelType::SingleSurface
    } else if position == 1 {
        ModelType::LajaunieApproach
    } else if position == 2 {
        ModelType::StratigraphicHorizons
    } else if position == 3 {
        ModelType::ContinuousProperty
    } else {
        ModelType::VectorField
    }
}

/// The audit entry of one model kind.
pub open spec fn audit_of(model: ModelType) -> GreedyModelAudit {
    match model {
        ModelType::SingleSurface => GreedyModelAudit {
            model,
            greedy_factory_model: ModelType::SingleSurface,
            reachable_from_surfe_api: false,
            minimal: GreedyHookBody::Implemented,
            residual: GreedyHookBody::Implemented,
            append: GreedyHookBody::Implemented,
        },
        ModelType::LajaunieApproach => GreedyModelAudit {
            model,
            greedy_factory_model: ModelType::LajaunieApproach,
            reachable_from_surfe_api: false,
            minimal: GreedyHookBody::Implemented,
            residual: GreedyHookBody::Implemented,
            append: GreedyHookBody::Implemented,
        },
        ModelType::StratigraphicHorizons => GreedyModelAudit {
            model,
            greedy_factory_model: ModelType::StratigraphicHorizons,
            reachable_from_surfe_api: false,
            minimal: GreedyHookBody::TodoStub,
            residual: GreedyHookBody::TodoStub,
            append: GreedyHookBody::TodoStub,
        },
        ModelType::ContinuousProperty => GreedyModelAudit {
            model,
            greedy_factory_model: ModelType::ContinuousProperty,
            reachable_from_surfe_api: false,
            minimal: GreedyHookBody::TodoStub,
            residual: GreedyHookBody::Implemented,
            append: GreedyHookBody::Implemented,
        },
        ModelType::VectorField => GreedyModelAudit {
            model,
            greedy_factory_model: ModelType::ContinuousProperty,
            reachable_from_surfe_api: false,
            minimal: GreedyHookBody::TodoStub,
            residual: GreedyHookBody::TodoStub,
            append: GreedyHookBody::TodoStub,
        },
    }
}

/// Complete five-model audit, in model declaration order.
pub fn greedy_model_audit() -> (audit: [GreedyModelAudit; 5])
    ensures
        forall|i: int| 0 <= i < 5 ==> #[trigger] audit@[i] == audit_of(model_at(i)),
{
    [
        GreedyModelAudit {
            model: ModelType::SingleSurface,
            greedy_factory_model: ModelType::SingleSurface,
            reachable_from_surfe_api: false,
            minimal: GreedyHookBody::Implemented,
            residual: GreedyHookBody::Implemented,
            append: GreedyHookBody::Implemented,
        },
        GreedyModelAudit {
            model: ModelType::LajaunieApproach,
            greedy_factory_model: ModelType::LajaunieApproach,
            reachable_from_surfe_api: false,
            minimal: GreedyHookBody::Implemented,
            residual: GreedyHookBody::Implemented,
            append: GreedyHookBody::Implemented,
        },
        GreedyModelAudit {
            model: ModelType::StratigraphicHorizons,
            greedy_factory_model: ModelType::StratigraphicHorizons,
            reachable_from_surfe_api: false,
            minimal: GreedyHookBody::TodoStub,
            residual: GreedyHookBody::TodoStub,
            append: GreedyHookBody::TodoStub,
        },
        GreedyModelAudit {
            model: ModelType::ContinuousProperty,
            greedy_factory_model: ModelType::ContinuousProperty,
            reachable_from_surfe_api: false,
            minimal: GreedyHookBody::TodoStub,
            residual: GreedyHookBody::Implemented,
            append: GreedyHookBody::Implemented,
        },
        GreedyModelAudit {
            model: ModelType::VectorField,
            greedy_factory_model: ModelType::ContinuousProperty,
            reachable_from_surfe_api: false,
            minimal: GreedyHookBody::TodoStub,
            residual: GreedyHookBody::TodoStub,
            append: GreedyHookBody::TodoStub,
        },
    ]
}

/// No model kind's Greedy hooks are reachable from the public API, and each
/// audit entry describes its own model.
pub proof fn lemma_greedy_unreachable(model: ModelType)
    ensures
        !audit_of(model).reachable_from_surfe_api,
        audit_of(model).model == model,
{
}

} // verus!
