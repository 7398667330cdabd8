//! Problem-size accounting and bound-side labels of fit reports.
use crate::diagnostics::ProblemDiagnosis;
use vstd::prelude::*;

verus! {

/// Public problem-size evidence recorded before solver presolve.
#[derive(Debug, Clone, Copy, PartialEq, Eq, Structural)]
pub struct ProblemSize {
    input_observations: usize,
    scalar_hard_relations: usize,
    scalar_soft_relations: usize,
    canonical_hard_equalities: Option<usize>,
    canonical_soft_equalities: Option<usize>,
    center_coefficients: Option<usize>,
    semantic_latents: usize,
    auxiliary_variables: usize,
    quadratic_objective_terms: usize,
    linear_objective_terms: usize,
    affine_inequality_constraints: usize,
    cone_blocks: usize,
    primal_variables: Option<usize>,
    equality_constraints: Option<usize>,
    kkt_dimension: Option<usize>,
}

/// Counts gathered from a validated problem for one Cubic size record.
#[derive(Debug, Clone, Copy, PartialEq, Eq, Structural)]
pub struct CubicProblemSizeParts {
    pub input_observations: usize,
    pub scalar_hard_relations: usize,
    pub scalar_soft_relations: usize,
    pub canonical_hard_equalities: usize,
    pub canonical_soft_equalities: usize,
    pub quadratic_objective_terms: usize,
    pub linear_objective_terms: usize,
    pub affine_inequality_constraints: usize,
    pub center_coefficients: usize,
    pub semantic_latents: usize,
    pub solver_hard_equalities: usize,
    pub auxiliary_variables: usize,
}

/// The size fields that every Cubic record copies from its parts.
pub open spec fn copies_cubic_parts(size: ProblemSize, parts: CubicProblemSizeParts) -> bool {
    &&& size.input_observations_spec() == parts.input_observations
    &&& size.scalar_hard_relations_spec() == parts.scalar_hard_relations
    &&& size.scalar_soft_relations_spec() == parts.scalar_soft_relations
    &&& size.canonical_hard_equalities_spec() == Some(parts.canonical_hard_equalities)
    &&& size.canonical_soft_equalities_spec() == Some(parts.canonical_soft_equalities)
    &&& size.center_coefficients_spec() == Some(parts.center_coefficients)
    &&& size.semantic_latents_spec() == parts.semantic_latents
    &&& size.auxiliary_variables_spec() == parts.auxiliary_variables
    &&& size.quadratic_objective_terms_spec() == parts.quadratic_objective_terms
    &&& size.linear_objective_terms_spec() == parts.linear_objective_terms
    &&& size.affine_inequality_constraints_spec() == parts.affine_inequality_constraints
    &&& size.cone_blocks_spec() == 0
}

/// Primal variables of the Equality standard form: center coefficients,
/// the four complete affine polynomial coefficients, and semantic latents.
pub open spec fn equality_primal_variables(parts: CubicProblemSizeParts) -> int {
    parts.center_coefficients + 4 + parts.semantic_latents
}

/// Equality rows of the Equality standard form: hard equalities and the four
/// polynomial side conditions.
pub open spec fn equality_constraint_rows(parts: CubicProblemSizeParts) -> int {
    parts.solver_hard_equalities + 4
}

/// Primal variables of the QP standard form.
pub open spec fn qp_primal_variables(parts: CubicProblemSizeParts) -> int {
    parts.center_coefficients + parts.semantic_latents + parts.auxiliary_variables
}

impl ProblemSize {
    /// The recorded `input_observations` field.
    pub closed spec fn input_observations_spec(self) -> usize {
        self.input_observations
    }

    /// The recorded `scalar_hard_relations` field.
    pub closed spec fn scalar_hard_relations_spec(self) -> usize {
        self.scalar_hard_relations
    }

    /// The recorded `scalar_soft_relations` field.
    pub closed spec fn scalar_soft_relations_spec(self) -> usize {
        self.scalar_soft_relations
    }

    /// The recorded `canonical_hard_equalities` field.
    pub closed spec fn canonical_hard_equalities_spec(self) -> Option<usize> {
        self.canonical_hard_equalities
    }

    /// The recorded `canonical_soft_equalities` field.
    pub closed spec fn canonical_soft_equalities_spec(self) -> Option<usize> {
        self.canonical_soft_equalities
    }

    /// The recorded `center_coefficients` field.
    pub closed spec fn center_coefficients_spec(self) -> Option<usize> {
        self.center_coefficients
    }

    /// The recorded `semantic_latents` field.
    pub closed spec fn semantic_latents_spec(self) -> usize {
        self.semantic_latents
    }

    /// The recorded `auxiliary_variables` field.
    pub closed spec fn auxiliary_variables_spec(self) -> usize {
        self.auxiliary_variables
    }

    /// The recorded `quadratic_objective_terms` field.
    pub closed spec fn quadratic_objective_terms_spec(self) -> usize {
        self.quadratic_objective_terms
    }

    /// The recorded `linear_objective_terms` field.
    pub closed spec fn linear_objective_terms_spec(self) -> usize {
        self.linear_objective_terms
    }

    /// The recorded `affine_inequality_constraints` field.
    pub closed spec fn affine_inequality_constraints_spec(self) -> usize {
        self.affine_inequality_constraints
    }

    /// The recorded `cone_blocks` field.
    pub closed spec fn cone_blocks_spec(self) -> usize {
        self.cone_blocks
    }

    /// The recorded `primal_variables` field.
    pub closed spec fn primal_variables_spec(self) -> Option<usize> {
        self.primal_variables
    }

    /// The recorded `equality_constraints` field.
    pub closed spec fn equality_constraints_spec(self) -> Option<usize> {
        self.equality_constraints
    }

    /// The recorded `kkt_dimension` field.
    pub closed spec fn kkt_dimension_spec(self) -> Option<usize> {
        self.kkt_dimension
    }

    /// The Equality-path size record, or `None` when a standard-form
    /// dimension does not fit in `usize`.
    pub fn cubic_equality(parts: CubicProblemSizeParts) -> (size: Option<Self>)
        ensures
            size is Some <==> equality_primal_variables(parts) + equality_constraint_rows(parts)
                <= usize::MAX,
            size matches Some(s) ==> copies_cubic_parts(s, parts) && s.primal_variables_spec()
                == Some(equality_primal_variables(parts) as usize) && s.equality_constraints_spec()
                == Some(equality_constraint_rows(parts) as usize) && s.kkt_dimension_spec() == Some(
                (equality_primal_variables(parts) + equality_constraint_rows(parts)) as usize,
            ),
    {
        let primal_variables = match parts.center_coefficients.checked_add(4) {
            Some(value) => match value.checked_add(parts.semantic_latents) {
                Some(value) => value,
                None => {
                    return None;
                },
            },
            None => {
                return None;
            },
        };
        let equality_constraints = match parts.solver_hard_equalities.checked_add(4) {
            Some(value) => value,
            None => {
                return None;
            },
        };
        let kkt_dimension = match primal_variables.checked_add(equality_constraints) {
            Some(value) => value,
            None => {
                return None;
            },
        };
        Some(
            Self {
                input_observations: parts.input_observations,
                scalar_hard_relations: parts.scalar_hard_relations,
                scalar_soft_relations: parts.scalar_soft_relations,
                canonical_hard_equalities: Some(parts.canonical_hard_equalities),
                canonical_soft_equalities: Some(parts.canonical_soft_equalities),
                center_coefficients: Some(parts.center_coefficients),
                semantic_latents: parts.semantic_latents,
                auxiliary_variables: parts.auxiliary_variables,
                quadratic_objective_terms: parts.quadratic_objective_terms,
                linear_objective_terms: parts.linear_objective_terms,
                affine_inequality_constraints: parts.affine_inequality_constraints,
                cone_blocks: 0,
                primal_variables: Some(primal_variables),
                equality_constraints: Some(equality_constraints),
                kkt_dimension: Some(kkt_dimension),
            },
        )
    }

    /// The QP-path size record, or `None` when the primal dimension does not
    /// fit in `usize`. No augmented KKT is planned on this path.
    pub fn cubic_qp(parts: CubicProblemSizeParts) -> (size: Option<Self>)
        ensures
            size is Some <==> qp_primal_variables(parts) <= usize::MAX,
            size matches Some(s) ==> copies_cubic_parts(s, parts) && s.primal_variables_spec()
                == Some(qp_primal_variables(parts) as usize) && s.equality_constraints_spec()
                == Some(parts.solver_hard_equalities) && s.kkt_dimension_spec() is None,
    {
        let primal_variables = match parts.center_coefficients.checked_add(parts.semantic_latents) {
            Some(value) => match value.checked_add(parts.auxiliary_variables) {
                Some(value) => value,
                None => {
                    return None;
                },
            },
            None => {
                return None;
            },
        };
        Some(
            Self {
                input_observations: parts.input_observations,
                scalar_hard_relations: parts.scalar_hard_relations,
                scalar_soft_relations: parts.scalar_soft_relations,
                canonical_hard_equalities: Some(parts.canonical_hard_equalities),
                canonical_soft_equalities: Some(parts.canonical_soft_equalities),
                center_coefficients: Some(parts.center_coefficients),
                semantic_latents: parts.semantic_latents,
                auxiliary_variables: parts.auxiliary_variables,
                quadratic_objective_terms: parts.quadratic_objective_terms,
                linear_objective_terms: parts.linear_objective_terms,
                affine_inequality_constraints: parts.affine_inequality_constraints,
                cone_blocks: 0,
                primal_variables: Some(primal_variables),
                equality_constraints: Some(parts.solver_hard_equalities),
                kkt_dimension: None,
            },
        )
    }

    /// Returns the independent top-level input count for audit context.
    pub fn input_observations(self) -> (value: usize)
        ensures
            value == self.input_observations_spec(),
    {
        self.input_observations
    }

    /// Returns scalar hard components across every caller-owned source.
    pub fn scalar_hard_relations(self) -> (value: usize)
        ensures
            value == self.scalar_hard_relations_spec(),
    {
        self.scalar_hard_relations
    }

    /// Returns independently retained scalar soft residual channels.
    pub fn scalar_soft_relations(self) -> (value: usize)
        ensures
            value == self.scalar_soft_relations_spec(),
    {
        self.scalar_soft_relations
    }

    /// Returns the exact hard equalities retained after duplicate merging, or
    /// `None` when fit stopped before canonical lowering.
    pub fn canonical_hard_equalities(self) -> (value: Option<usize>)
        ensures
            value == self.canonical_hard_equalities_spec(),
    {
        self.canonical_hard_equalities
    }

    /// Returns canonical soft equality residuals, or `None` before lowering.
    pub fn canonical_soft_equalities(self) -> (value: Option<usize>)
        ensures
            value == self.canonical_soft_equalities_spec(),
    {
        self.canonical_soft_equalities
    }

    /// Returns the representer-center coefficient count, or `None` before
    /// representation planning.
    pub fn center_coefficients(self) -> (value: Option<usize>)
        ensures
            value == self.center_coefficients_spec(),
    {
        self.center_coefficients
    }

    /// Returns the semantic latent count.
    pub fn semantic_latents(self) -> (value: usize)
        ensures
            value == self.semantic_latents_spec(),
    {
        self.semantic_latents
    }

    /// Returns the auxiliary-variable count.
    pub fn auxiliary_variables(self) -> (value: usize)
        ensures
            value == self.auxiliary_variables_spec(),
    {
        self.auxiliary_variables
    }

    /// Returns quadratic soft-loss terms in the physical objective.
    pub fn quadratic_objective_terms(self) -> (value: usize)
        ensures
            value == self.quadratic_objective_terms_spec(),
    {
        self.quadratic_objective_terms
    }

    /// Returns linear soft-violation terms in the physical objective.
    pub fn linear_objective_terms(self) -> (value: usize)
        ensures
            value == self.linear_objective_terms_spec(),
    {
        self.linear_objective_terms
    }

    /// Returns scalar affine-inequality rows before backend presolve.
    pub fn affine_inequality_constraints(self) -> (value: usize)
        ensures
            value == self.affine_inequality_constraints_spec(),
    {
        self.affine_inequality_constraints
    }

    /// Returns the conic block count.
    pub fn cone_blocks(self) -> (value: usize)
        ensures
            value == self.cone_blocks_spec(),
    {
        self.cone_blocks
    }

    /// Returns the backend-standard-form primal dimension, or `None` when no
    /// exact standard form was planned.
    pub fn primal_variables(self) -> (value: Option<usize>)
        ensures
            value == self.primal_variables_spec(),
    {
        self.primal_variables
    }

    /// Returns the backend-standard-form equality dimension, or `None` when no
    /// exact standard form was planned.
    pub fn equality_constraints(self) -> (value: Option<usize>)
        ensures
            value == self.equality_constraints_spec(),
    {
        self.equality_constraints
    }

    /// Returns the actual symmetric augmented KKT dimension, or `None` when no
    /// exact KKT was planned.
    pub fn kkt_dimension(self) -> (value: Option<usize>)
        ensures
            value == self.kkt_dimension_spec(),
    {
        self.kkt_dimension
    }

}

/// Which side of a Field Value Bound one assessment describes.
#[derive(Debug, Clone, Copy, PartialEq, Eq, PartialOrd, Ord, Structural)]
#[non_exhaustive]
pub enum BoundSide {
    /// A lower relation of the form `bound <= field`.
    Lower,
    /// An upper relation of the form `field <= bound`.
    Upper,
}

/// Whether a recovered bound side lies on its accepted activity envelope.
#[derive(Debug, Clone, Copy, PartialEq, Eq, Structural)]
#[non_exhaustive]
pub enum BoundActiveState {
    /// The satisfaction slack is no larger than the physical relation tolerance.
    Active,
    /// The relation has physical satisfaction slack above its tolerance.
    Inactive,
}

/// Scalar hard and soft relation counts of one problem.
#[derive(Debug, Clone, Copy, PartialEq, Eq, Structural)]
pub struct ScalarRelationCounts {
    pub hard: usize,
    pub soft: usize,
}

impl ScalarRelationCounts {
    /// All scalar relations, or `None` when the count does not fit in `usize`.
    pub fn total(self) -> (total: Option<usize>)
        ensures
            total is Some <==> self.hard + self.soft <= usize::MAX,
            total matches Some(t) ==> t == self.hard + self.soft,
    {
        self.hard.checked_add(self.soft)
    }
}

/// The size a report records before lowering: the declared counts, no
/// canonical or solver dimensions yet, and no auxiliary variables or cone
/// blocks.
pub fn conservative_problem_size(
    input_observations: usize,
    scalar_relations: ScalarRelationCounts,
    semantic_latents: usize,
    quadratic_objective_terms: usize,
    linear_objective_terms: usize,
    affine_inequality_constraints: usize,
) -> (size: ProblemSize)
    ensures
        size.input_observations_spec() == input_observations,
        size.scalar_hard_relations_spec() == scalar_relations.hard,
        size.scalar_soft_relations_spec() == scalar_relations.soft,
        size.canonical_hard_equalities_spec() is None,
        size.canonical_soft_equalities_spec() is None,
        size.center_coefficients_spec() is None,
        size.semantic_latents_spec() == semantic_latents,
        size.auxiliary_variables_spec() == 0,
        size.quadratic_objective_terms_spec() == quadratic_objective_terms,
        size.linear_objective_terms_spec() == linear_objective_terms,
        size.affine_inequality_constraints_spec() == affine_inequality_constraints,
        size.cone_blocks_spec() == 0,
        size.primal_variables_spec() is None,
        size.equality_constraints_spec() is None,
        size.kkt_dimension_spec() is None,
{
    ProblemSize {
        input_observations,
        scalar_hard_relations: scalar_relations.hard,
        scalar_soft_relations: scalar_relations.soft,
        canonical_hard_equalities: None,
        canonical_soft_equalities: None,
        center_coefficients: None,
        semantic_latents,
        auxiliary_variables: 0,
        quadratic_objective_terms,
        linear_objective_terms,
        affine_inequality_constraints,
        cone_blocks: 0,
        primal_variables: None,
        equality_constraints: None,
        kkt_dimension: None,
    }
}

/// What semantic preflight found before any numerical work: how many of
/// each structural finding a report holds, and whether the optional ones
/// are present.
#[derive(Debug, Clone, Copy, PartialEq, Eq, Structural)]
pub struct PreflightFindings {
    pub unresolved_axial_normals: usize,
    pub uninformative_shared_level_sets: usize,
    pub direct_input_conflicts: usize,
    pub relation_graph_conflicts: usize,
    pub shared_level_set_relation_conflicts: usize,
    pub unidentified_additive_gauge: bool,
    pub interpretable_rank_deficiency: bool,
    pub capacity_exceeded: bool,
}

/// The diagnosis that preflight findings force, in priority order:
/// unresolved semantics, then uninformative shared level sets, then direct
/// conflicts of any kind, then an unidentified gauge, then an unidentified
/// field mode, then capacity.
pub open spec fn preflight_diagnosis_of(findings: PreflightFindings) -> Option<ProblemDiagnosis> {
    if findings.unresolved_axial_normals > 0 {
        Some(ProblemDiagnosis::UnresolvedSemantics)
    } else if findings.uninformative_shared_level_sets > 0 {
        Some(ProblemDiagnosis::UninformativeSharedLevelSet)
    } else if findings.direct_input_conflicts > 0 || findings.relation_graph_conflicts > 0
        || findings.shared_level_set_relation_conflicts > 0 {
        Some(ProblemDiagnosis::DirectInputConflict)
    } else if findings.unidentified_additive_gauge {
        Some(ProblemDiagnosis::UnidentifiedAdditiveGauge)
    } else if findings.interpretable_rank_deficiency {
        Some(ProblemDiagnosis::UnidentifiedFieldMode)
    } else if findings.capacity_exceeded {
        Some(ProblemDiagnosis::CapacityExceeded)
    } else {
        None
    }
}

/// The diagnosis that a report's preflight findings force, if any.
pub fn primary_preflight_diagnosis(findings: PreflightFindings) -> (diagnosis: Option<ProblemDiagnosis>)
    ensures
        diagnosis == preflight_diagnosis_of(findings),
        findings.unresolved_axial_normals > 0 ==> diagnosis == Some(ProblemDiagnosis::UnresolvedSemantics),
        findings.unresolved_axial_normals == 0 && findings.uninformative_shared_level_sets > 0 ==> diagnosis
            == Some(ProblemDiagnosis::UninformativeSharedLevelSet),
        findings.unresolved_axial_normals == 0 && findings.uninformative_shared_level_sets == 0 && (
        findings.direct_input_conflicts > 0 || findings.relation_graph_conflicts > 0
            || findings.shared_level_set_relation_conflicts > 0) ==> diagnosis == Some(
            ProblemDiagnosis::DirectInputConflict,
        ),
        findings.unresolved_axial_normals == 0 && findings.uninformative_shared_level_sets == 0
            && findings.direct_input_conflicts == 0 && findings.relation_graph_conflicts == 0
            && findings.shared_level_set_relation_conflicts == 0 && findings.unidentified_additive_gauge
            ==> diagnosis == Some(ProblemDiagnosis::UnidentifiedAdditiveGauge),
        findings.unresolved_axial_normals == 0 && findings.uninformative_shared_level_sets == 0
            && findings.direct_input_conflicts == 0 && findings.relation_graph_conflicts == 0
            && findings.shared_level_set_relation_conflicts == 0 && !findings.unidentified_additive_gauge
            && findings.interpretable_rank_deficiency ==> diagnosis == Some(ProblemDiagnosis::UnidentifiedFieldMode),
        findings.unresolved_axial_normals == 0 && findings.uninformative_shared_level_sets == 0
            && findings.direct_input_conflicts == 0 && findings.relation_graph_conflicts == 0
            && findings.shared_level_set_relation_conflicts == 0 && !findings.unidentified_additive_gauge
            && !findings.interpretable_rank_deficiency ==> (diagnosis == if findings.capacity_exceeded {
            Some(ProblemDiagnosis::CapacityExceeded)
        } else {
            None
        }),
{
    if findings.unresolved_axial_normals != 0 {
        return Some(ProblemDiagnosis::UnresolvedSemantics);
    }
    if findings.uninformative_shared_level_sets != 0 {
        return Some(ProblemDiagnosis::UninformativeSharedLevelSet);
    }
    if findings.direct_input_conflicts != 0 || findings.relation_graph_conflicts != 0
        || findings.shared_level_set_relation_conflicts != 0 {
        return Some(ProblemDiagnosis::DirectInputConflict);
    }
    if findings.unidentified_additive_gauge {
        return Some(ProblemDiagnosis::UnidentifiedAdditiveGauge);
    }
    if findings.interpretable_rank_deficiency {
        return Some(ProblemDiagnosis::UnidentifiedFieldMode);
    }
    if findings.capacity_exceeded {
        Some(ProblemDiagnosis::CapacityExceeded)
    } else {
        None
    }
}

/// The priority of preflight diagnoses: unresolved semantics come first; an
/// uninformative shared level set outranks every kind of conflict, whatever
/// their counts; any conflict outranks an unidentified gauge, which
/// outranks an unidentified field mode, which outranks capacity.
pub proof fn lemma_preflight_priority(findings: PreflightFindings)
    ensures
        findings.unresolved_axial_normals > 0 ==> preflight_diagnosis_of(findings) == Some(
            ProblemDiagnosis::UnresolvedSemantics,
        ),
        findings.unresolved_axial_normals == 0 && findings.uninformative_shared_level_sets > 0
            ==> preflight_diagnosis_of(findings) == Some(ProblemDiagnosis::UninformativeSharedLevelSet),
        findings.unresolved_axial_normals == 0 && findings.uninformative_shared_level_sets == 0 && (
        findings.direct_input_conflicts > 0 || findings.relation_graph_conflicts > 0
            || findings.shared_level_set_relation_conflicts > 0) ==> preflight_diagnosis_of(findings) == Some(
            ProblemDiagnosis::DirectInputConflict,
        ),
        findings.unresolved_axial_normals == 0 && findings.uninformative_shared_level_sets == 0
            && findings.direct_input_conflicts == 0 && findings.relation_graph_conflicts == 0
            && findings.shared_level_set_relation_conflicts == 0 && findings.unidentified_additive_gauge
            ==> preflight_diagnosis_of(findings) == Some(ProblemDiagnosis::UnidentifiedAdditiveGauge),
        findings.unresolved_axial_normals == 0 && findings.uninformative_shared_level_sets == 0
            && findings.direct_input_conflicts == 0 && findings.relation_graph_conflicts == 0
            && findings.shared_level_set_relation_conflicts == 0 && !findings.unidentified_additive_gauge
            && findings.interpretable_rank_deficiency ==> preflight_diagnosis_of(findings) == Some(
            ProblemDiagnosis::UnidentifiedFieldMode,
        ),
        findings.unresolved_axial_normals == 0 && findings.uninformative_shared_level_sets == 0
            && findings.direct_input_conflicts == 0 && findings.relation_graph_conflicts == 0
            && findings.shared_level_set_relation_conflicts == 0 && !findings.unidentified_additive_gauge
            && !findings.interpretable_rank_deficiency && findings.capacity_exceeded
            ==> preflight_diagnosis_of(findings) == Some(ProblemDiagnosis::CapacityExceeded),
{
}

/// Preflight finds nothing exactly when the report holds no finding at all;
/// any finding stops the fit with a diagnosis.
pub proof fn lemma_preflight_clean_iff_no_findings(findings: PreflightFindings)
    ensures
        preflight_diagnosis_of(findings) is None <==> (findings.unresolved_axial_normals == 0
            && findings.uninformative_shared_level_sets == 0 && findings.direct_input_conflicts == 0
            && findings.relation_graph_conflicts == 0 && findings.shared_level_set_relation_conflicts
            == 0 && !findings.unidentified_additive_gauge && !findings.interpretable_rank_deficiency
            && !findings.capacity_exceeded),
{
}

} // verus!
