//! Typed fit diagnoses and backend-attempt evidence.
use crate::functional::{sorted_unique_group_ids, strictly_increasing_groups, GroupId, SemanticRolePath, SourceId};
use vstd::prelude::*;

verus! {

/// GeoRBF's semantic conclusion for a failed fit.
#[derive(Debug, Clone, Copy, PartialEq, Eq, Structural)]
#[non_exhaustive]
pub enum ProblemDiagnosis {
    /// One or more caller inputs require an explicit semantic resolution.
    UnresolvedSemantics,
    /// The supplied problem could not form a valid fitting problem.
    InvalidProblem,
    /// Two locally comparable hard inputs have incompatible exact targets.
    DirectInputConflict,
    /// Shift-invariant relations did not select an absolute field representative.
    UnidentifiedAdditiveGauge,
    /// A one-member shared level set did not constrain or connect its latent.
    UninformativeSharedLevelSet,
    /// The observations did not identify every observable field mode.
    UnidentifiedFieldMode,
    /// A numerical decision fell between the versioned accept/reject bands.
    NumericalDecisionGrayZone,
    /// The checked peak-memory plan exceeded the supported capacity.
    CapacityExceeded,
    /// A backend candidate violated its backend-standard-form contract.
    BackendContractViolation,
    /// Backend-standard form passed, but physical recovery verification failed.
    RecoveryVerificationFailure,
    /// The convex feasible set is empty under an independently validated certificate.
    InfeasibleProblem,
    /// The convex objective is unbounded below along an independently validated recession ray.
    UnboundedProblem,
    /// Independently validated attempts reached mutually incompatible conclusions.
    NumericalConsistencyFailure,
    /// Numerical execution failed without proving a stronger diagnosis.
    NumericalFailure,
}

/// Physical dimension of one scalar hard-relation residual.
#[derive(Debug, Clone, Copy, PartialEq, Eq, Structural)]
#[non_exhaustive]
pub enum ResidualDimension {
    /// Scalar field-value units.
    FieldValue,
    /// Scalar field-value-per-length units.
    FieldValuePerLength,
}

/// Outcome of a bounded approximately 106-bit representation rescue.
#[derive(Debug, Clone, Copy, PartialEq, Eq, Structural)]
#[non_exhaustive]
pub enum CubicPrecisionRescueConclusion {
    /// Every upgraded mode was proved strictly positive.
    Positive,
    /// A reconstructible canonical algebraic zero was proved.
    AlgebraicZero,
    /// The upgraded Schur block contained negative curvature.
    NegativeCurvature,
    /// The upgraded interval still could not be separated from zero.
    NumericalDecisionGrayZone,
    /// More than the policy's 64-mode bound required upgrading.
    CapacityExceeded,
}

/// Algebraic object whose numerical rank was assessed.
#[derive(Debug, Clone, Copy, PartialEq, Eq, Structural)]
#[non_exhaustive]
pub enum RankEvidenceDomain {
    /// Complete Cubic polynomial pairing.
    CubicPolynomialPairing,
    /// Cubic reduced kernel pairing.
    CubicReducedPairing,
    /// Symmetric augmented backend KKT matrix.
    BackendKkt,
}

/// Canonical field concept recovered from a numerical rank deficiency.
#[derive(Debug, Clone, Copy, PartialEq, Eq, Structural)]
#[non_exhaustive]
pub enum RankDeficiencyConcept {
    /// A mode in Cubic's complete affine polynomial space was not identified.
    CubicPi1FieldMode,
    /// A canonical Cubic quotient field mode had algebraically zero energy.
    CubicQuotientFieldMode,
}

/// Result of a versioned rank decision.
#[derive(Debug, Clone, Copy, PartialEq, Eq, Structural)]
#[non_exhaustive]
pub enum RankDecision {
    /// The evidence lies above the acceptance boundary.
    FullRank,
    /// The evidence lies below the rejection boundary.
    RankDeficient,
    /// The evidence lies between the two decision boundaries.
    NumericalDecisionGrayZone,
}

/// Kind of checked capacity failure.
#[derive(Debug, Clone, Copy, PartialEq, Eq, Structural)]
#[non_exhaustive]
pub enum CapacityFailureKind {
    /// Checked size arithmetic overflowed.
    ArithmeticOverflow,
    /// The planned peak exceeded the fixed capacity limit.
    LimitExceeded,
}

/// Failure point within Cubic representation or Equality KKT analysis.
#[derive(Debug, Clone, Copy, PartialEq, Eq, Structural)]
#[non_exhaustive]
pub enum AnalysisFailureStage {
    /// Complete Cubic polynomial-rank analysis.
    CubicPolynomialRank,
    /// Cholesky positivity check of the reduced Cubic pairing.
    CubicReducedCholesky,
    /// Inertia check of the reduced Cubic pairing.
    CubicReducedInertia,
    /// Spectral analysis of the reduced Cubic pairing.
    CubicReducedSpectrum,
    /// Backend KKT rank confirmation.
    BackendRankConfirmation,
    /// Backend KKT inertia analysis.
    BackendInertia,
    /// Backend rank-analysis workspace.
    BackendRankWorkspace,
    /// Backend inertia-analysis workspace.
    BackendInertiaWorkspace,
    /// Primary symmetric-indefinite factorization workspace.
    BackendFactorWorkspace,
    /// Primary linear-solve workspace.
    BackendSolveWorkspace,
    /// Full-SVD rescue workspace.
    BackendSvdRescueWorkspace,
}

/// Reason a finite input could not define an invertible solve-coordinate map.
#[derive(Debug, Clone, Copy, PartialEq, Eq, Structural)]
#[non_exhaustive]
pub enum SolveCoordinateFailureReason {
    /// The bounding-box center was not finite.
    BoundingBoxCenterNotFinite,
    /// The characteristic support length was not finite.
    CharacteristicLengthNotFinite,
    /// Cubing the characteristic length did not produce an invertible scale.
    FieldRecoveryScaleNotInvertible,
    /// Transforming a canonical functional produced a non-finite value.
    StandardFunctionalNotFinite,
}

/// Physical or representation contract quantity that exceeded its limit.
#[derive(Debug, Clone, Copy, PartialEq, Eq, Structural)]
#[non_exhaustive]
pub enum AnalysisContractQuantity {
    /// Null-space reconstruction defect.
    NullSpaceDefect,
    /// Householder orthogonality defect.
    HouseholderOrthogonalityError,
    /// Canonical response quotient-coordinate round-trip error.
    CanonicalResponseRoundTripError,
    /// Unregularized quotient LLT backward certificate.
    QuotientLltBackwardError,
    /// FieldEnergy identity defect in solver-facing quotient coordinates.
    QuotientFieldEnergyIdentityError,
    /// Complete-Pi1 side-condition defect after energy orthonormalization.
    QuotientSideConditionError,
    /// Solver-to-canonical basis recovery round-trip error.
    QuotientRecoveryRoundTripError,
    /// Canonical response round-trip error through the energy basis.
    QuotientBasisResponseRoundTripError,
    /// Reduced-pairing symmetry defect.
    ReducedSymmetryDefect,
    /// Complete-affine reproduction error.
    AffineReproductionError,
}

/// Backend-standard-form input array.
#[derive(Debug, Clone, Copy, PartialEq, Eq, Structural)]
#[non_exhaustive]
pub enum BackendInputField {
    /// Primal Hessian.
    Hessian,
    /// Equality Jacobian.
    EqualityJacobian,
    /// Stationarity right-hand side.
    StationarityRightHandSide,
    /// Equality right-hand side.
    EqualityRightHandSide,
}

/// Deterministic KKT scaling failure.
#[derive(Debug, Clone, Copy, PartialEq, Eq, Structural)]
#[non_exhaustive]
pub enum ScalingFailureReason {
    /// Matrix, right-hand-side, and dimension shapes disagreed.
    InvalidShape,
    /// A row had exactly zero norm.
    ZeroNorm { index: usize },
    /// A row norm was non-finite.
    NonFiniteNorm { index: usize },
}

/// Backend termination evidence, distinct from [`ProblemDiagnosis`].
#[derive(Debug, Clone, Copy, PartialEq, Eq, Structural)]
#[non_exhaustive]
pub enum SolveAttemptTermination {
    /// The backend produced a nominal-accuracy candidate.
    CandidateProduced,
    /// The backend produced a reduced-accuracy candidate.
    ReducedAccuracyCandidateProduced,
    /// The backend produced evidence suggesting primal infeasibility.
    PrimalInfeasibilityCandidate,
    /// The backend produced evidence suggesting dual infeasibility.
    DualInfeasibilityCandidate,
    /// The configured iteration or resource limit was reached.
    LimitReached,
    /// The backend stopped after insufficient progress.
    InsufficientProgress,
    /// A configured callback requested termination.
    CallbackTermination,
    /// The backend attempt stopped on a numerical error.
    NumericalError,
}

/// Algorithm selected for one bounded backend attempt.
#[derive(Debug, Clone, Copy, PartialEq, Eq, Structural)]
#[non_exhaustive]
pub enum SolveAttemptKind {
    /// Symmetric-indefinite Bunch-Kaufman factorization with refinement.
    BunchKaufmanRefinement,
    /// Full-SVD rescue after the primary candidate was rejected.
    FullSvdRescue,
    /// Clarabel's standard deterministic QP profile.
    ClarabelStandard,
    /// Clarabel's robust deterministic QP retry profile.
    ClarabelRobust,
}

/// Category of a rejected backend attempt or execution path.
#[derive(Debug, Clone, Copy, PartialEq, Eq, Structural)]
#[non_exhaustive]
pub enum AttemptFailureCategory {
    /// The backend returned a non-finite candidate.
    NonFiniteCandidate,
    /// The candidate exceeded the normalized backward-error limit.
    BackwardErrorExceeded,
    /// Scaling recovery exceeded its round-trip limit.
    ScalingRoundTripExceeded,
    /// The backend decomposition itself failed numerically.
    BackendDecompositionFailure,
    /// A QP candidate exceeded a convex residual acceptance limit.
    ConvexResidualExceeded,
    /// The backend did not honor the one-thread contract.
    ThreadContractViolation,
    /// The backend identity or complete settings fingerprint changed.
    BackendFingerprintMismatch,
    /// The termination did not carry a verified candidate or certificate.
    UnverifiedTermination,
    /// A claimed primal-infeasibility ray failed independent validation.
    InvalidInfeasibilityCertificate,
    /// A claimed dual-infeasibility ray failed independent validation.
    InvalidRecessionCertificate,
    /// Independently validated attempts reached incompatible conclusions.
    InconsistentValidatedConclusions,
}

/// Stable preflight evidence for one unresolved Axial Normal.
#[derive(Debug, Clone, Copy, PartialEq, Eq)]
pub struct UnresolvedAxialNormalEvidence {
    source_id: SourceId,
    input_axis: [u64; 3],
    backend_invoked: bool,
}

impl UnresolvedAxialNormalEvidence {
    /// The recorded `source_id` field.
    pub closed spec fn source_id_spec(self) -> SourceId {
        self.source_id
    }

    /// The recorded `input_axis` field.
    pub closed spec fn input_axis_spec(self) -> [u64; 3] {
        self.input_axis
    }

    /// The recorded `backend_invoked` field.
    pub closed spec fn backend_invoked_spec(self) -> bool {
        self.backend_invoked
    }

    /// Evidence for `source_id`, whose normalized axis has the binary64 bit
    /// patterns `input_axis`, recorded before any backend runs.
    pub fn new(source_id: SourceId, input_axis: [u64; 3]) -> (evidence: Self)
        ensures
            evidence.source_id_spec() == source_id,
            evidence.input_axis_spec() == input_axis,
            !evidence.backend_invoked_spec(),
    {
        Self { source_id, input_axis, backend_invoked: false }
    }

    /// Returns the unresolved caller-owned Axial Normal identity.
    pub fn source_id(&self) -> (value: &SourceId)
        ensures
            *value == self.source_id_spec(),
    {
        &self.source_id
    }

    /// Returns the binary64 bit patterns of the normalized orientation retained
    /// from the original input axis.
    pub fn input_axis(&self) -> (value: [u64; 3])
        ensures
            value == self.input_axis_spec(),
    {
        self.input_axis
    }

    /// Confirms that semantic preflight stopped before backend execution.
    pub fn backend_invoked(&self) -> (value: bool)
        ensures
            value == self.backend_invoked_spec(),
    {
        self.backend_invoked
    }

}


/// Stable proof that every supplied relation is invariant to a global constant shift.
#[derive(Debug, Clone, PartialEq, Eq)]
pub struct UnidentifiedAdditiveGaugeEvidence {
    source_ids: Vec<SourceId>,
    group_ids: Vec<GroupId>,
    backend_invoked: bool,
}

impl UnidentifiedAdditiveGaugeEvidence {
    /// The recorded `source_ids` field.
    pub closed spec fn source_ids_spec(self) -> Seq<SourceId> {
        self.source_ids@
    }

    /// The recorded `group_ids` field.
    pub closed spec fn group_ids_spec(self) -> Seq<GroupId> {
        self.group_ids@
    }

    /// The recorded `backend_invoked` field.
    pub closed spec fn backend_invoked_spec(self) -> bool {
        self.backend_invoked
    }

    /// Evidence over the given sources and groups.
    pub fn new(source_ids: Vec<SourceId>, group_ids: Vec<GroupId>, backend_invoked: bool) -> (evidence: Self)
        ensures
            evidence.source_ids_spec() == source_ids@,
            evidence.group_ids_spec() == group_ids@,
            evidence.backend_invoked_spec() == backend_invoked,
    {
        Self { source_ids, group_ids, backend_invoked }
    }

    /// Returns every shift-invariant caller source in stable order.
    pub fn source_ids(&self) -> (value: &[SourceId])
        ensures
            value@ == self.source_ids_spec(),
    {
        self.source_ids.as_slice()
    }

    /// Returns every affected semantic latent in stable group order.
    pub fn group_ids(&self) -> (value: &[GroupId])
        ensures
            value@ == self.group_ids_spec(),
    {
        self.group_ids.as_slice()
    }

    /// Reports whether a backend was called before this structural conclusion.
    pub fn backend_invoked(&self) -> (value: bool)
        ensures
            value == self.backend_invoked_spec(),
    {
        self.backend_invoked
    }

}


/// Stable canonical source association retained by certificate and recovery evidence.
#[derive(Debug, Clone, PartialEq, Eq)]
pub struct CanonicalEvidenceSource {
    source_id: SourceId,
    group_ids: Vec<GroupId>,
    semantic_role: SemanticRolePath,
}

impl CanonicalEvidenceSource {
    /// The recorded `source_id` field.
    pub closed spec fn source_id_spec(self) -> SourceId {
        self.source_id
    }

    /// The recorded `group_ids` field.
    pub closed spec fn group_ids_spec(self) -> Seq<GroupId> {
        self.group_ids@
    }

    /// The recorded `semantic_role` field.
    pub closed spec fn semantic_role_spec(self) -> SemanticRolePath {
        self.semantic_role
    }

    /// The association of `source_id` with its groups and role.
    pub fn new(source_id: SourceId, group_ids: Vec<GroupId>, semantic_role: SemanticRolePath) -> (source: Self)
        ensures
            source.source_id_spec() == source_id,
            source.group_ids_spec() == group_ids@,
            source.semantic_role_spec() == semantic_role,
    {
        Self { source_id, group_ids, semantic_role }
    }

    /// Returns the caller-owned source identity.
    pub fn source_id(&self) -> (value: &SourceId)
        ensures
            *value == self.source_id_spec(),
    {
        &self.source_id
    }

    /// Returns every stable semantic group associated with this evidence edge.
    pub fn group_ids(&self) -> (value: &[GroupId])
        ensures
            value@ == self.group_ids_spec(),
    {
        self.group_ids.as_slice()
    }

    /// Returns the canonical semantic role of this evidence edge.
    pub fn semantic_role(&self) -> (value: &SemanticRolePath)
        ensures
            *value == self.semantic_role_spec(),
    {
        &self.semantic_role
    }

}


/// Stable proof that one shared-level latent has no informative relation.
#[derive(Debug, Clone, Copy, PartialEq, Eq, Structural)]
pub struct UninformativeSharedLevelSetEvidence {
    group_id: GroupId,
    member_source_id: SourceId,
    backend_invoked: bool,
}

impl UninformativeSharedLevelSetEvidence {
    /// The recorded `group_id` field.
    pub closed spec fn group_id_spec(self) -> GroupId {
        self.group_id
    }

    /// The recorded `member_source_id` field.
    pub closed spec fn member_source_id_spec(self) -> SourceId {
        self.member_source_id
    }

    /// The recorded `backend_invoked` field.
    pub closed spec fn backend_invoked_spec(self) -> bool {
        self.backend_invoked
    }

    /// Evidence for `group_id` and its only member relation.
    pub fn new(group_id: GroupId, member_source_id: SourceId, backend_invoked: bool) -> (evidence: Self)
        ensures
            evidence.group_id_spec() == group_id,
            evidence.member_source_id_spec() == member_source_id,
            evidence.backend_invoked_spec() == backend_invoked,
    {
        Self { group_id, member_source_id, backend_invoked }
    }

    /// Returns the uninformative semantic latent's stable group identity.
    pub fn group_id(&self) -> (value: &GroupId)
        ensures
            *value == self.group_id_spec(),
    {
        &self.group_id
    }

    /// Returns the only member relation's caller-owned identity.
    pub fn member_source_id(&self) -> (value: &SourceId)
        ensures
            *value == self.member_source_id_spec(),
    {
        &self.member_source_id
    }

    /// Reports whether a backend was called before this structural conclusion.
    pub fn backend_invoked(&self) -> (value: bool)
        ensures
            value == self.backend_invoked_spec(),
    {
        self.backend_invoked
    }

}


/// One caller-owned source and its role in a shared-level-set conflict proof.
#[derive(Debug, PartialEq, Eq)]
pub struct SharedLevelSetConflictSourceEvidence {
    source_id: SourceId,
    group_ids: Vec<GroupId>,
    semantic_role: SemanticRolePath,
}

impl SharedLevelSetConflictSourceEvidence {
    /// The recorded `source_id` field.
    pub closed spec fn source_id_spec(self) -> SourceId {
        self.source_id
    }

    /// The recorded `group_ids` field.
    pub closed spec fn group_ids_spec(self) -> Seq<GroupId> {
        self.group_ids@
    }

    /// The recorded `semantic_role` field.
    pub closed spec fn semantic_role_spec(self) -> SemanticRolePath {
        self.semantic_role
    }

    /// The source's provenance, with its groups put in increasing order and
    /// repeated groups removed.
    pub fn new(source_id: SourceId, group_ids: Vec<GroupId>, semantic_role: SemanticRolePath) -> (evidence: Self)
        ensures
            evidence.source_id_spec() == source_id,
            strictly_increasing_groups(evidence.group_ids_spec()),
            forall|g: GroupId| evidence.group_ids_spec().contains(g) <==> group_ids@.contains(g),
            evidence.semantic_role_spec() == semantic_role,
    {
        let group_ids = sorted_unique_group_ids(group_ids);
        Self { source_id, group_ids, semantic_role }
    }

    /// Returns the caller-owned source identity.
    pub fn source_id(&self) -> (value: &SourceId)
        ensures
            *value == self.source_id_spec(),
    {
        &self.source_id
    }

    /// Returns the shared level sets connected to this source in the proof.
    pub fn group_ids(&self) -> (value: &[GroupId])
        ensures
            value@ == self.group_ids_spec(),
    {
        self.group_ids.as_slice()
    }

    /// Returns this source's original semantic role.
    pub fn semantic_role(&self) -> (value: &SemanticRolePath)
        ensures
            *value == self.semantic_role_spec(),
    {
        &self.semantic_role
    }

}


/// Auditable range, precision, and conclusion of one bounded rescue.
#[derive(Debug, Clone, Copy, PartialEq, Eq, Structural)]
pub struct CubicPrecisionRescueEvidence {
    first_mode: usize,
    mode_count: usize,
    precision_bits: u32,
    conclusion: CubicPrecisionRescueConclusion,
}

impl CubicPrecisionRescueEvidence {
    /// The recorded `first_mode` field.
    pub closed spec fn first_mode_spec(self) -> usize {
        self.first_mode
    }

    /// The recorded `mode_count` field.
    pub closed spec fn mode_count_spec(self) -> usize {
        self.mode_count
    }

    /// The recorded `precision_bits` field.
    pub closed spec fn precision_bits_spec(self) -> u32 {
        self.precision_bits
    }

    /// The recorded `conclusion` field.
    pub closed spec fn conclusion_spec(self) -> CubicPrecisionRescueConclusion {
        self.conclusion
    }

    /// Evidence for one bounded rescue.
    pub fn new(first_mode: usize, mode_count: usize, precision_bits: u32, conclusion: CubicPrecisionRescueConclusion) -> (evidence: Self)
        ensures
            evidence.first_mode_spec() == first_mode,
            evidence.mode_count_spec() == mode_count,
            evidence.precision_bits_spec() == precision_bits,
            evidence.conclusion_spec() == conclusion,
    {
        Self { first_mode, mode_count, precision_bits, conclusion }
    }

    /// Returns the first factorization-order mode in the upgraded block.
    pub fn first_mode(self) -> (value: usize)
        ensures
            value == self.first_mode_spec(),
    {
        self.first_mode
    }

    /// Returns the complete number of modes submitted to rescue.
    pub fn mode_count(self) -> (value: usize)
        ensures
            value == self.mode_count_spec(),
    {
        self.mode_count
    }

    /// Returns the arithmetic precision used by the bounded rescue.
    pub fn precision_bits(self) -> (value: u32)
        ensures
            value == self.precision_bits_spec(),
    {
        self.precision_bits
    }

    /// Returns the semantic conclusion reached after upgrading.
    pub fn conclusion(self) -> (value: CubicPrecisionRescueConclusion)
        ensures
            value == self.conclusion_spec(),
    {
        self.conclusion
    }

}


/// Positive, negative, and zero inertia counts.
#[derive(Debug, Clone, Copy, PartialEq, Eq, Structural)]
pub struct InertiaCounts {
    positive: usize,
    negative: usize,
    zero: usize,
}

impl InertiaCounts {
    /// The recorded `positive` field.
    pub closed spec fn positive_spec(self) -> usize {
        self.positive
    }

    /// The recorded `negative` field.
    pub closed spec fn negative_spec(self) -> usize {
        self.negative
    }

    /// The recorded `zero` field.
    pub closed spec fn zero_spec(self) -> usize {
        self.zero
    }

    /// The counts `positive`, `negative` and `zero`.
    pub fn new(positive: usize, negative: usize, zero: usize) -> (counts: Self)
        ensures
            counts.positive_spec() == positive,
            counts.negative_spec() == negative,
            counts.zero_spec() == zero,
    {
        Self { positive, negative, zero }
    }

    /// Returns the positive eigenvalue count.
    pub fn positive(self) -> (value: usize)
        ensures
            value == self.positive_spec(),
    {
        self.positive
    }

    /// Returns the negative eigenvalue count.
    pub fn negative(self) -> (value: usize)
        ensures
            value == self.negative_spec(),
    {
        self.negative
    }

    /// Returns the zero eigenvalue count.
    pub fn zero(self) -> (value: usize)
        ensures
            value == self.zero_spec(),
    {
        self.zero
    }

}


/// Expected and observed inertia for the symmetric Equality KKT form.
#[derive(Debug, Clone, Copy, PartialEq, Eq, Structural)]
pub struct InertiaEvidence {
    expected: InertiaCounts,
    observed: InertiaCounts,
    backend_invoked: bool,
}

impl InertiaEvidence {
    /// The recorded `expected` field.
    pub closed spec fn expected_spec(self) -> InertiaCounts {
        self.expected
    }

    /// The recorded `observed` field.
    pub closed spec fn observed_spec(self) -> InertiaCounts {
        self.observed
    }

    /// The recorded `backend_invoked` field.
    pub closed spec fn backend_invoked_spec(self) -> bool {
        self.backend_invoked
    }

    /// Evidence comparing `expected` with `observed` inertia.
    pub fn new(expected: InertiaCounts, observed: InertiaCounts, backend_invoked: bool) -> (evidence: Self)
        ensures
            evidence.expected_spec() == expected,
            evidence.observed_spec() == observed,
            evidence.backend_invoked_spec() == backend_invoked,
    {
        Self { expected, observed, backend_invoked }
    }

    /// Returns the convex Equality KKT inertia required by policy.
    pub fn expected(self) -> (value: InertiaCounts)
        ensures
            value == self.expected_spec(),
    {
        self.expected
    }

    /// Returns the independently observed inertia.
    pub fn observed(self) -> (value: InertiaCounts)
        ensures
            value == self.observed_spec(),
    {
        self.observed
    }

    /// Reports whether a candidate-producing backend was invoked.
    pub fn backend_invoked(self) -> (value: bool)
        ensures
            value == self.backend_invoked_spec(),
    {
        self.backend_invoked
    }

}


/// The counted parts of one all-source recovery record.
pub struct AllSourceRecoveryEvidenceParts {
    pub canonical_hard_relation_count: usize,
    pub canonical_soft_relation_count: usize,
    pub participating_sources: Vec<SourceId>,
    pub recovered_sources: Vec<SourceId>,
    pub representer_count: usize,
    pub solver_relation_row_count: usize,
    pub recovery_edge_count: usize,
    pub verified: bool,
}

/// Independently counted participation and recovery evidence for every source.
#[derive(Debug, Clone, PartialEq, Eq)]
pub struct AllSourceRecoveryEvidence {
    canonical_hard_relation_count: usize,
    canonical_soft_relation_count: usize,
    participating_sources: Vec<SourceId>,
    recovered_sources: Vec<SourceId>,
    representer_count: usize,
    solver_relation_row_count: usize,
    recovery_edge_count: usize,
    verified: bool,
}

impl AllSourceRecoveryEvidence {
    /// The recorded `canonical_hard_relation_count` field.
    pub closed spec fn canonical_hard_relation_count_spec(self) -> usize {
        self.canonical_hard_relation_count
    }

    /// The recorded `canonical_soft_relation_count` field.
    pub closed spec fn canonical_soft_relation_count_spec(self) -> usize {
        self.canonical_soft_relation_count
    }

    /// The recorded `participating_sources` field.
    pub closed spec fn participating_sources_spec(self) -> Seq<SourceId> {
        self.participating_sources@
    }

    /// The recorded `recovered_sources` field.
    pub closed spec fn recovered_sources_spec(self) -> Seq<SourceId> {
        self.recovered_sources@
    }

    /// The recorded `representer_count` field.
    pub closed spec fn representer_count_spec(self) -> usize {
        self.representer_count
    }

    /// The recorded `solver_relation_row_count` field.
    pub closed spec fn solver_relation_row_count_spec(self) -> usize {
        self.solver_relation_row_count
    }

    /// The recorded `recovery_edge_count` field.
    pub closed spec fn recovery_edge_count_spec(self) -> usize {
        self.recovery_edge_count
    }

    /// The recorded `verified` field.
    pub closed spec fn verified_spec(self) -> bool {
        self.verified
    }

    /// The record holding exactly the given counts and sources.
    pub fn new(parts: AllSourceRecoveryEvidenceParts) -> (evidence: Self)
        ensures
            evidence.canonical_hard_relation_count_spec() == parts.canonical_hard_relation_count,
            evidence.canonical_soft_relation_count_spec() == parts.canonical_soft_relation_count,
            evidence.participating_sources_spec() == parts.participating_sources@,
            evidence.recovered_sources_spec() == parts.recovered_sources@,
            evidence.representer_count_spec() == parts.representer_count,
            evidence.solver_relation_row_count_spec() == parts.solver_relation_row_count,
            evidence.recovery_edge_count_spec() == parts.recovery_edge_count,
            evidence.verified_spec() == parts.verified,
    {
        Self {
            canonical_hard_relation_count: parts.canonical_hard_relation_count,
            canonical_soft_relation_count: parts.canonical_soft_relation_count,
            participating_sources: parts.participating_sources,
            recovered_sources: parts.recovered_sources,
            representer_count: parts.representer_count,
            solver_relation_row_count: parts.solver_relation_row_count,
            recovery_edge_count: parts.recovery_edge_count,
            verified: parts.verified,
        }
    }

    /// Returns the independently counted canonical hard relations.
    pub fn canonical_hard_relation_count(&self) -> (value: usize)
        ensures
            value == self.canonical_hard_relation_count_spec(),
    {
        self.canonical_hard_relation_count
    }

    /// Returns the independently counted canonical soft residual channels.
    pub fn canonical_soft_relation_count(&self) -> (value: usize)
        ensures
            value == self.canonical_soft_relation_count_spec(),
    {
        self.canonical_soft_relation_count
    }

    /// Returns every SourceId whose canonical relation participates in the problem.
    pub fn participating_sources(&self) -> (value: &[SourceId])
        ensures
            value@ == self.participating_sources_spec(),
    {
        self.participating_sources.as_slice()
    }

    /// Returns every SourceId reached through a verified recovery edge.
    pub fn recovered_sources(&self) -> (value: &[SourceId])
        ensures
            value@ == self.recovered_sources_spec(),
    {
        self.recovered_sources.as_slice()
    }

    /// Returns the independently constructed physical representer count.
    pub fn representer_count(&self) -> (value: usize)
        ensures
            value == self.representer_count_spec(),
    {
        self.representer_count
    }

    /// Returns relation rows retained by the solver-independent form.
    pub fn solver_relation_row_count(&self) -> (value: usize)
        ensures
            value == self.solver_relation_row_count_spec(),
    {
        self.solver_relation_row_count
    }

    /// Returns source-bearing canonical-to-recovery edges.
    pub fn recovery_edge_count(&self) -> (value: usize)
        ensures
            value == self.recovery_edge_count_spec(),
    {
        self.recovery_edge_count
    }

    /// Reports complete source coverage and objective association verification.
    pub fn verified(&self) -> (value: bool)
        ensures
            value == self.verified_spec(),
    {
        self.verified
    }

}


/// Capacity evidence retained when allocation planning rejects a fit.
#[derive(Debug, Clone, Copy, PartialEq, Eq, Structural)]
pub struct CapacityEvidence {
    kind: CapacityFailureKind,
    limit_bytes: u64,
    planned_peak_bytes: Option<u64>,
    large_allocation_attempted: bool,
    backend_invocation_attempted: bool,
}

impl CapacityEvidence {
    /// The recorded `kind` field.
    pub closed spec fn kind_spec(self) -> CapacityFailureKind {
        self.kind
    }

    /// The recorded `limit_bytes` field.
    pub closed spec fn limit_bytes_spec(self) -> u64 {
        self.limit_bytes
    }

    /// The recorded `planned_peak_bytes` field.
    pub closed spec fn planned_peak_bytes_spec(self) -> Option<u64> {
        self.planned_peak_bytes
    }

    /// The recorded `large_allocation_attempted` field.
    pub closed spec fn large_allocation_attempted_spec(self) -> bool {
        self.large_allocation_attempted
    }

    /// The recorded `backend_invocation_attempted` field.
    pub closed spec fn backend_invocation_attempted_spec(self) -> bool {
        self.backend_invocation_attempted
    }

    /// Evidence for one rejected capacity plan.
    pub fn new(kind: CapacityFailureKind, limit_bytes: u64, planned_peak_bytes: Option<u64>, large_allocation_attempted: bool, backend_invocation_attempted: bool) -> (evidence: Self)
        ensures
            evidence.kind_spec() == kind,
            evidence.limit_bytes_spec() == limit_bytes,
            evidence.planned_peak_bytes_spec() == planned_peak_bytes,
            evidence.large_allocation_attempted_spec() == large_allocation_attempted,
            evidence.backend_invocation_attempted_spec() == backend_invocation_attempted,
    {
        Self { kind, limit_bytes, planned_peak_bytes, large_allocation_attempted, backend_invocation_attempted }
    }

    /// Returns why the checked capacity plan failed.
    pub fn kind(self) -> (value: CapacityFailureKind)
        ensures
            value == self.kind_spec(),
    {
        self.kind
    }

    /// Returns the fixed peak-memory limit.
    pub fn limit_bytes(self) -> (value: u64)
        ensures
            value == self.limit_bytes_spec(),
    {
        self.limit_bytes
    }

    /// Returns the planned peak when it was representable.
    pub fn planned_peak_bytes(self) -> (value: Option<u64>)
        ensures
            value == self.planned_peak_bytes_spec(),
    {
        self.planned_peak_bytes
    }

    /// Reports whether a large allocation had been attempted.
    pub fn large_allocation_attempted(self) -> (value: bool)
        ensures
            value == self.large_allocation_attempted_spec(),
    {
        self.large_allocation_attempted
    }

    /// Reports whether a numerical backend had been invoked.
    pub fn backend_invocation_attempted(self) -> (value: bool)
        ensures
            value == self.backend_invocation_attempted_spec(),
    {
        self.backend_invocation_attempted
    }

}


/// The views of a sequence of text slices.
pub open spec fn text_views(texts: Seq<&str>) -> Seq<Seq<char>> {
    texts.map_values(|text: &str| text@)
}

/// The views of a sequence of owned strings.
pub open spec fn string_views(texts: Seq<String>) -> Seq<Seq<char>> {
    texts.map_values(|text: String| text@)
}

/// Legacy feature slot `slot`: the feature at that position, or empty text
/// when fewer features are enabled.
pub open spec fn legacy_feature_slot(features: Seq<Seq<char>>, slot: int) -> Seq<char> {
    if slot < features.len() {
        features[slot]
    } else {
        Seq::empty()
    }
}

/// The recorded identity parts of one backend.
pub struct BackendFingerprintParts {
    pub schema_version: u32,
    pub crate_name: &'static str,
    pub crate_version: &'static str,
    pub features: Vec<&'static str>,
    pub algorithm: &'static str,
    pub target_arch: &'static str,
    pub target_os: &'static str,
    pub requested_threads: usize,
    pub actual_threads: usize,
}

/// Auditable identity of the backend used by one fit.
#[derive(Debug, Clone, PartialEq, Eq)]
pub struct BackendFingerprint {
    schema_version: u32,
    crate_name: String,
    crate_version: String,
    first_feature_slot: String,
    second_feature_slot: String,
    enabled_features: Vec<String>,
    algorithm: String,
    target_arch: String,
    target_os: String,
    requested_threads: usize,
    actual_threads: usize,
}

impl BackendFingerprint {
    /// The recorded `schema_version` field.
    pub closed spec fn schema_version_spec(self) -> u32 {
        self.schema_version
    }

    /// The recorded `crate_name` field.
    pub closed spec fn crate_name_spec(self) -> Seq<char> {
        self.crate_name@
    }

    /// The recorded `crate_version` field.
    pub closed spec fn crate_version_spec(self) -> Seq<char> {
        self.crate_version@
    }

    /// The recorded `first_feature_slot` field.
    pub closed spec fn first_feature_slot_spec(self) -> Seq<char> {
        self.first_feature_slot@
    }

    /// The recorded `second_feature_slot` field.
    pub closed spec fn second_feature_slot_spec(self) -> Seq<char> {
        self.second_feature_slot@
    }

    /// The recorded `enabled_features` field.
    pub closed spec fn enabled_features_spec(self) -> Seq<String> {
        self.enabled_features@
    }

    /// The recorded `algorithm` field.
    pub closed spec fn algorithm_spec(self) -> Seq<char> {
        self.algorithm@
    }

    /// The recorded `target_arch` field.
    pub closed spec fn target_arch_spec(self) -> Seq<char> {
        self.target_arch@
    }

    /// The recorded `target_os` field.
    pub closed spec fn target_os_spec(self) -> Seq<char> {
        self.target_os@
    }

    /// The recorded `requested_threads` field.
    pub closed spec fn requested_threads_spec(self) -> usize {
        self.requested_threads
    }

    /// The recorded `actual_threads` field.
    pub closed spec fn actual_threads_spec(self) -> usize {
        self.actual_threads
    }

    /// The fingerprint of the given parts. The two legacy feature slots hold
    /// the first two features, or empty text where fewer are enabled.
    pub fn new(parts: BackendFingerprintParts) -> (fingerprint: Self)
        ensures
            fingerprint.schema_version_spec() == parts.schema_version,
            fingerprint.crate_name_spec() == parts.crate_name@,
            fingerprint.crate_version_spec() == parts.crate_version@,
            fingerprint.first_feature_slot_spec() == legacy_feature_slot(text_views(parts.features@), 0),
            fingerprint.second_feature_slot_spec() == legacy_feature_slot(text_views(parts.features@), 1),
            string_views(fingerprint.enabled_features_spec()) == text_views(parts.features@),
            fingerprint.algorithm_spec() == parts.algorithm@,
            fingerprint.target_arch_spec() == parts.target_arch@,
            fingerprint.target_os_spec() == parts.target_os@,
            fingerprint.requested_threads_spec() == parts.requested_threads,
            fingerprint.actual_threads_spec() == parts.actual_threads,
    {
        let first_feature_slot = if parts.features.len() > 0 {
            String::from_str(parts.features[0])
        } else {
            String::new()
        };
        let second_feature_slot = if parts.features.len() > 1 {
            String::from_str(parts.features[1])
        } else {
            String::new()
        };
        let mut enabled_features: Vec<String> = Vec::new();
        let mut index: usize = 0;
        while index < parts.features.len()
            invariant
                index <= parts.features.len(),
                string_views(enabled_features@) == text_views(parts.features@.take(index as int)),
            decreases parts.features.len() - index,
        {
            let feature = String::from_str(parts.features[index]);
            proof {
                assert(parts.features@.take(index + 1) == parts.features@.take(index as int).push(
                    parts.features@[index as int],
                ));
                assert(string_views(enabled_features@.push(feature)) == string_views(enabled_features@).push(feature@));
                assert(text_views(parts.features@.take(index + 1)) == text_views(parts.features@.take(index as int)).push(parts.features@[index as int]@));
            }
            enabled_features.push(feature);
            index = index + 1;
        }
        proof {
            assert(parts.features@.take(parts.features.len() as int) == parts.features@);
        }
        Self {
            schema_version: parts.schema_version,
            crate_name: String::from_str(parts.crate_name),
            crate_version: String::from_str(parts.crate_version),
            first_feature_slot,
            second_feature_slot,
            enabled_features,
            algorithm: String::from_str(parts.algorithm),
            target_arch: String::from_str(parts.target_arch),
            target_os: String::from_str(parts.target_os),
            requested_threads: parts.requested_threads,
            actual_threads: parts.actual_threads,
        }
    }

    /// Returns the two legacy backend feature slots.
    ///
    /// This fixed-width view is retained for source compatibility. A backend
    /// with fewer than two enabled features leaves trailing slots empty; use
    /// [`Self::enabled_features`] for the exact feature set.
    pub fn features(&self) -> (slots: [&str; 2])
        ensures
            slots@[0]@ == self.first_feature_slot_spec(),
            slots@[1]@ == self.second_feature_slot_spec(),
    {
        [self.first_feature_slot.as_str(), self.second_feature_slot.as_str()]
    }

    /// Returns the exact enabled backend features, in order.
    pub fn enabled_features(&self) -> (features: &[String])
        ensures
            string_views(features@) == string_views(self.enabled_features_spec()),
    {
        self.enabled_features.as_slice()
    }

    /// Returns the fingerprint schema version.
    pub fn schema_version(&self) -> (value: u32)
        ensures
            value == self.schema_version_spec(),
    {
        self.schema_version
    }

    /// Returns the backend crate name.
    pub fn crate_name(&self) -> (value: &str)
        ensures
            value@ == self.crate_name_spec(),
    {
        self.crate_name.as_str()
    }

    /// Returns the backend crate version.
    pub fn crate_version(&self) -> (value: &str)
        ensures
            value@ == self.crate_version_spec(),
    {
        self.crate_version.as_str()
    }

    /// Returns the resolved backend algorithm.
    pub fn algorithm(&self) -> (value: &str)
        ensures
            value@ == self.algorithm_spec(),
    {
        self.algorithm.as_str()
    }

    /// Returns the target architecture recorded by the adapter.
    pub fn target_arch(&self) -> (value: &str)
        ensures
            value@ == self.target_arch_spec(),
    {
        self.target_arch.as_str()
    }

    /// Returns the target operating system recorded by the adapter.
    pub fn target_os(&self) -> (value: &str)
        ensures
            value@ == self.target_os_spec(),
    {
        self.target_os.as_str()
    }

    /// Returns the requested thread count recorded by the backend adapter.
    pub fn requested_threads(&self) -> (value: usize)
        ensures
            value == self.requested_threads_spec(),
    {
        self.requested_threads
    }

    /// Returns the actual thread count recorded by the backend adapter.
    pub fn actual_threads(&self) -> (value: usize)
        ensures
            value == self.actual_threads_spec(),
    {
        self.actual_threads
    }

}


/// Resolved settings for one backend attempt.
#[derive(Debug, Clone, PartialEq, Eq)]
pub struct BackendAttemptSettings {
    kind: SolveAttemptKind,
    pivoting: Option<String>,
    block_size: Option<usize>,
    parallelism_threshold: Option<usize>,
    factor_workspace_source: Option<String>,
    maximum_refinement_steps: Option<usize>,
    settings_id: Option<String>,
    left_vectors: Option<String>,
    right_vectors: Option<String>,
}

impl BackendAttemptSettings {
    /// The recorded `kind` field.
    pub closed spec fn kind_spec(self) -> SolveAttemptKind {
        self.kind
    }

    /// The recorded `pivoting` field.
    pub closed spec fn pivoting_spec(self) -> Option<Seq<char>> {
        match self.pivoting { Some(s) => Some(s@), None => None }
    }

    /// The recorded `block_size` field.
    pub closed spec fn block_size_spec(self) -> Option<usize> {
        self.block_size
    }

    /// The recorded `parallelism_threshold` field.
    pub closed spec fn parallelism_threshold_spec(self) -> Option<usize> {
        self.parallelism_threshold
    }

    /// The recorded `factor_workspace_source` field.
    pub closed spec fn factor_workspace_source_spec(self) -> Option<Seq<char>> {
        match self.factor_workspace_source { Some(s) => Some(s@), None => None }
    }

    /// The recorded `maximum_refinement_steps` field.
    pub closed spec fn maximum_refinement_steps_spec(self) -> Option<usize> {
        self.maximum_refinement_steps
    }

    /// The recorded `settings_id` field.
    pub closed spec fn settings_id_spec(self) -> Option<Seq<char>> {
        match self.settings_id { Some(s) => Some(s@), None => None }
    }

    /// The recorded `left_vectors` field.
    pub closed spec fn left_vectors_spec(self) -> Option<Seq<char>> {
        match self.left_vectors { Some(s) => Some(s@), None => None }
    }

    /// The recorded `right_vectors` field.
    pub closed spec fn right_vectors_spec(self) -> Option<Seq<char>> {
        match self.right_vectors { Some(s) => Some(s@), None => None }
    }

    /// Settings of a Bunch-Kaufman factorization attempt with refinement.
    pub fn lblt(pivoting: &str, block_size: usize, parallelism_threshold: usize, factor_workspace_source: &str, maximum_refinement_steps: usize) -> (settings: Self)
        ensures
            settings.kind_spec() == SolveAttemptKind::BunchKaufmanRefinement,
            settings.pivoting_spec() == Some(pivoting@),
            settings.block_size_spec() == Some(block_size),
            settings.parallelism_threshold_spec() == Some(parallelism_threshold),
            settings.factor_workspace_source_spec() == Some(factor_workspace_source@),
            settings.maximum_refinement_steps_spec() == Some(maximum_refinement_steps),
            settings.settings_id_spec() is None,
            settings.left_vectors_spec() is None,
            settings.right_vectors_spec() is None,
    {
        Self {
            kind: SolveAttemptKind::BunchKaufmanRefinement,
            pivoting: Some(String::from_str(pivoting)),
            block_size: Some(block_size),
            parallelism_threshold: Some(parallelism_threshold),
            factor_workspace_source: Some(String::from_str(factor_workspace_source)),
            maximum_refinement_steps: Some(maximum_refinement_steps),
            settings_id: None,
            left_vectors: None,
            right_vectors: None,
        }
    }

    /// Settings of a full-SVD rescue attempt.
    pub fn full_svd(settings_id: &str, left_vectors: &str, right_vectors: &str) -> (settings: Self)
        ensures
            settings.kind_spec() == SolveAttemptKind::FullSvdRescue,
            settings.pivoting_spec() is None,
            settings.block_size_spec() is None,
            settings.parallelism_threshold_spec() is None,
            settings.factor_workspace_source_spec() is None,
            settings.maximum_refinement_steps_spec() is None,
            settings.settings_id_spec() == Some(settings_id@),
            settings.left_vectors_spec() == Some(left_vectors@),
            settings.right_vectors_spec() == Some(right_vectors@),
    {
        Self {
            kind: SolveAttemptKind::FullSvdRescue,
            pivoting: None,
            block_size: None,
            parallelism_threshold: None,
            factor_workspace_source: None,
            maximum_refinement_steps: None,
            settings_id: Some(String::from_str(settings_id)),
            left_vectors: Some(String::from_str(left_vectors)),
            right_vectors: Some(String::from_str(right_vectors)),
        }
    }

    /// Settings of a deterministic QP attempt of the given profile.
    pub fn clarabel(kind: SolveAttemptKind, settings_id: &str) -> (settings: Self)
        requires
            kind == SolveAttemptKind::ClarabelStandard || kind == SolveAttemptKind::ClarabelRobust,
        ensures
            settings.kind_spec() == kind,
            settings.pivoting_spec() is None,
            settings.block_size_spec() is None,
            settings.parallelism_threshold_spec() is None,
            settings.factor_workspace_source_spec() is None,
            settings.maximum_refinement_steps_spec() is None,
            settings.settings_id_spec() == Some(settings_id@),
            settings.left_vectors_spec() is None,
            settings.right_vectors_spec() is None,
    {
        Self {
            kind,
            pivoting: None,
            block_size: None,
            parallelism_threshold: None,
            factor_workspace_source: None,
            maximum_refinement_steps: None,
            settings_id: Some(String::from_str(settings_id)),
            left_vectors: None,
            right_vectors: None,
        }
    }

    /// Returns the algorithm family these settings configure.
    pub fn kind(&self) -> (value: SolveAttemptKind)
        ensures
            value == self.kind_spec(),
    {
        self.kind
    }

    /// Returns the pivoting strategy for a factorization attempt.
    pub fn pivoting(&self) -> (value: Option<&str>)
        ensures
            match value {
                Some(text) => self.pivoting_spec() == Some(text@),
                None => self.pivoting_spec() is None,
            },
    {
        match &self.pivoting {
            Some(text) => Some(text.as_str()),
            None => None,
        }
    }

    /// Returns the factorization block size when applicable.
    pub fn block_size(&self) -> (value: Option<usize>)
        ensures
            value == self.block_size_spec(),
    {
        self.block_size
    }

    /// Returns the backend parallelism threshold when applicable.
    pub fn parallelism_threshold(&self) -> (value: Option<usize>)
        ensures
            value == self.parallelism_threshold_spec(),
    {
        self.parallelism_threshold
    }

    /// Returns how factorization workspace was provisioned.
    pub fn factor_workspace_source(&self) -> (value: Option<&str>)
        ensures
            match value {
                Some(text) => self.factor_workspace_source_spec() == Some(text@),
                None => self.factor_workspace_source_spec() is None,
            },
    {
        match &self.factor_workspace_source {
            Some(text) => Some(text.as_str()),
            None => None,
        }
    }

    /// Returns the maximum refinement-step budget when applicable.
    pub fn maximum_refinement_steps(&self) -> (value: Option<usize>)
        ensures
            value == self.maximum_refinement_steps_spec(),
    {
        self.maximum_refinement_steps
    }

    /// Returns the backend settings identity for an SVD rescue.
    pub fn settings_id(&self) -> (value: Option<&str>)
        ensures
            match value {
                Some(text) => self.settings_id_spec() == Some(text@),
                None => self.settings_id_spec() is None,
            },
    {
        match &self.settings_id {
            Some(text) => Some(text.as_str()),
            None => None,
        }
    }

    /// Returns the requested left-singular-vector mode when applicable.
    pub fn left_vectors(&self) -> (value: Option<&str>)
        ensures
            match value {
                Some(text) => self.left_vectors_spec() == Some(text@),
                None => self.left_vectors_spec() is None,
            },
    {
        match &self.left_vectors {
            Some(text) => Some(text.as_str()),
            None => None,
        }
    }

    /// Returns the requested right-singular-vector mode when applicable.
    pub fn right_vectors(&self) -> (value: Option<&str>)
        ensures
            match value {
                Some(text) => self.right_vectors_spec() == Some(text@),
                None => self.right_vectors_spec() is None,
            },
    {
        match &self.right_vectors {
            Some(text) => Some(text.as_str()),
            None => None,
        }
    }

}


/// Ruiz scaling summary applied to one backend attempt.
#[derive(Debug, Clone, PartialEq, Eq)]
pub struct ScalingSummary {
    method: String,
    rounds: usize,
    saturated_outside_target: usize,
}

impl ScalingSummary {
    /// The recorded `method` field.
    pub closed spec fn method_spec(self) -> Seq<char> {
        self.method@
    }

    /// The recorded `rounds` field.
    pub closed spec fn rounds_spec(self) -> usize {
        self.rounds
    }

    /// The recorded `saturated_outside_target` field.
    pub closed spec fn saturated_outside_target_spec(self) -> usize {
        self.saturated_outside_target
    }

    /// The summary of `rounds` rounds of the scaling method `method`.
    pub fn new(method: &str, rounds: usize, saturated_outside_target: usize) -> (summary: Self)
        ensures
            summary.method_spec() == method@,
            summary.rounds_spec() == rounds,
            summary.saturated_outside_target_spec() == saturated_outside_target,
    {
        Self { method: String::from_str(method), rounds, saturated_outside_target }
    }

    /// Returns the stable scaling-method identity.
    pub fn method(&self) -> (value: &str)
        ensures
            value@ == self.method_spec(),
    {
        self.method.as_str()
    }

    /// Returns the number of completed fixed scaling rounds.
    pub fn rounds(&self) -> (value: usize)
        ensures
            value == self.rounds_spec(),
    {
        self.rounds
    }

    /// Returns how many rows saturated outside the target norm band.
    pub fn saturated_outside_target(&self) -> (value: usize)
        ensures
            value == self.saturated_outside_target_spec(),
    {
        self.saturated_outside_target
    }

}


impl Clone for SharedLevelSetConflictSourceEvidence {
    fn clone(&self) -> (copy: Self)
        ensures
            same_conflict_source(copy, *self),
    {
        let group_ids = self.group_ids.clone();
        proof {
            assert(group_ids@ =~= self.group_ids@);
        }
        Self { source_id: self.source_id, group_ids, semantic_role: self.semantic_role }
    }
}

/// Two conflict-source records hold the same source, groups and role.
pub open spec fn same_conflict_source(
    a: SharedLevelSetConflictSourceEvidence,
    b: SharedLevelSetConflictSourceEvidence,
) -> bool {
    &&& a.source_id_spec() == b.source_id_spec()
    &&& a.group_ids_spec() == b.group_ids_spec()
    &&& a.semantic_role_spec() == b.semantic_role_spec()
}

/// Record `i` of `sources` is the first record of its source and matches
/// `record`.
pub open spec fn is_first_record_at(
    sources: Seq<SharedLevelSetConflictSourceEvidence>,
    i: int,
    record: SharedLevelSetConflictSourceEvidence,
) -> bool {
    &&& 0 <= i < sources.len()
    &&& same_conflict_source(sources[i], record)
    &&& forall|j: int| 0 <= j < i ==> #[trigger] sources[j].source_id_spec() != record.source_id_spec()
}

/// Some record of `sources` is the first record of its source and matches
/// `record`.
pub open spec fn has_first_record(
    sources: Seq<SharedLevelSetConflictSourceEvidence>,
    record: SharedLevelSetConflictSourceEvidence,
) -> bool {
    exists|i: int| is_first_record_at(sources, i, record)
}

/// Some record of `kept` belongs to source `id`.
pub open spec fn mentions_source(kept: Seq<SharedLevelSetConflictSourceEvidence>, id: SourceId) -> bool {
    exists|k: int| 0 <= k < kept.len() && #[trigger] kept[k].source_id_spec() == id
}

/// `kept` holds, in strictly increasing source order, the first record of
/// `sources` for each source that `sources` mentions.
pub open spec fn first_record_per_source(
    sources: Seq<SharedLevelSetConflictSourceEvidence>,
    kept: Seq<SharedLevelSetConflictSourceEvidence>,
) -> bool {
    &&& forall|a: int, b: int|
        0 <= a < b < kept.len() ==> kept[a].source_id_spec()@ < kept[b].source_id_spec()@
    &&& forall|k: int|
        0 <= k < kept.len() ==> has_first_record(sources, #[trigger] kept[k])
    &&& forall|i: int|
        0 <= i < sources.len() ==> mentions_source(kept, (#[trigger] sources[i]).source_id_spec())
}

/// Complete provenance for an impossible hard shared-level-set relation proof.
#[derive(Debug, PartialEq, Eq)]
pub struct SharedLevelSetRelationConflictEvidence {
    source_provenance: Vec<SharedLevelSetConflictSourceEvidence>,
    source_ids: Vec<SourceId>,
    group_ids: Vec<GroupId>,
    semantic_roles: Vec<SemanticRolePath>,
    backend_invoked: bool,
}

impl SharedLevelSetRelationConflictEvidence {
    /// The recorded provenance, one record per source.
    pub closed spec fn source_provenance_spec(self) -> Seq<SharedLevelSetConflictSourceEvidence> {
        self.source_provenance@
    }

    /// The recorded sources.
    pub closed spec fn source_ids_spec(self) -> Seq<SourceId> {
        self.source_ids@
    }

    /// The recorded groups.
    pub closed spec fn group_ids_spec(self) -> Seq<GroupId> {
        self.group_ids@
    }

    /// The recorded roles.
    pub closed spec fn semantic_roles_spec(self) -> Seq<SemanticRolePath> {
        self.semantic_roles@
    }

    /// Whether a backend ran before the proof.
    pub closed spec fn backend_invoked_spec(self) -> bool {
        self.backend_invoked
    }

    /// The proof provenance of the given source records: the first record of
    /// each source, in increasing source order, with the matching source and
    /// role lists and every connected group once, in increasing order. No
    /// backend is involved in such a proof.
    pub fn new(source_provenance: Vec<SharedLevelSetConflictSourceEvidence>) -> (evidence: Self)
        ensures
            first_record_per_source(source_provenance@, evidence.source_provenance_spec()),
            evidence.source_ids_spec().len() == evidence.source_provenance_spec().len(),
            evidence.semantic_roles_spec().len() == evidence.source_provenance_spec().len(),
            forall|k: int|
                0 <= k < evidence.source_provenance_spec().len() ==> #[trigger] evidence.source_ids_spec()[k]
                    == evidence.source_provenance_spec()[k].source_id_spec()
                    && evidence.semantic_roles_spec()[k]
                    == evidence.source_provenance_spec()[k].semantic_role_spec(),
            strictly_increasing_groups(evidence.group_ids_spec()),
            forall|g: GroupId|
                #[trigger] evidence.group_ids_spec().contains(g) <==> exists|k: int|
                    0 <= k < evidence.source_provenance_spec().len()
                        && evidence.source_provenance_spec()[k].group_ids_spec().contains(g),
            !evidence.backend_invoked_spec(),
    {
        let mut kept: Vec<SharedLevelSetConflictSourceEvidence> = Vec::new();
        let mut index: usize = 0;
        while index < source_provenance.len()
            invariant
                index <= source_provenance.len(),
                first_record_per_source(source_provenance@.take(index as int), kept@),
            decreases source_provenance.len() - index,
        {
            let ghost prefix = source_provenance@.take(index as int);
            let ghost next_prefix = source_provenance@.take(index + 1);
            let ghost before = kept@;
            proof {
                assert(next_prefix == prefix.push(source_provenance@[index as int]));
            }
            let id = source_provenance[index].source_id;
            let mut position: usize = 0;
            while position < kept.len() && kept[position].source_id.value() < id.value()
                invariant
                    position <= kept.len(),
                    forall|k: int| 0 <= k < position ==> kept@[k].source_id_spec()@ < id@,
                decreases kept.len() - position,
            {
                position = position + 1;
            }
            if position < kept.len() && kept[position].source_id.value() == id.value() {
                proof {
                    SourceId::lemma_view_injective(kept@[position as int].source_id_spec(), id);
                    assert(kept@[position as int].source_id_spec() == id);
                    assert forall|k: int| 0 <= k < kept@.len() implies has_first_record(
                        next_prefix,
                        #[trigger] kept@[k],
                    ) by {
                        assert(has_first_record(prefix, kept@[k]));
                        let i = choose|i: int| is_first_record_at(prefix, i, kept@[k]);
                        assert(next_prefix[i] == prefix[i]);
                        assert forall|j: int| 0 <= j < i implies #[trigger] next_prefix[j].source_id_spec()
                            != kept@[k].source_id_spec() by {
                            assert(next_prefix[j] == prefix[j]);
                        }
                        assert(is_first_record_at(next_prefix, i, kept@[k]));
                    }
                    assert forall|i: int| 0 <= i < next_prefix.len() implies mentions_source(
                        kept@,
                        (#[trigger] next_prefix[i]).source_id_spec(),
                    ) by {
                        if i < prefix.len() {
                            assert(next_prefix[i] == prefix[i]);
                            assert(mentions_source(kept@, prefix[i].source_id_spec()));
                        } else {
                            assert(kept@[position as int].source_id_spec() == next_prefix[i].source_id_spec());
                        }
                    }
                    assert(first_record_per_source(next_prefix, kept@));
                }
            } else {
                let record = source_provenance[index].clone();
                kept.insert(position, record);
                proof {
                    assert(kept@[position as int] == record);
                    assert forall|a: int, b: int| 0 <= a < b < kept@.len() implies kept@[a].source_id_spec()@
                        < kept@[b].source_id_spec()@ by {
                        if b < position {
                            assert(kept@[a] == before[a] && kept@[b] == before[b]);
                        } else if b == position {
                            assert(kept@[a] == before[a]);
                        } else if a < position {
                            assert(kept@[a] == before[a] && kept@[b] == before[b - 1]);
                        } else if a == position {
                            assert(kept@[b] == before[b - 1]);
                            assert(before[position as int].source_id_spec()@ >= id@);
                            assert(before[position as int].source_id_spec()@ != id@);
                        } else {
                            assert(kept@[a] == before[a - 1] && kept@[b] == before[b - 1]);
                        }
                    }
                    assert forall|j: int| 0 <= j < prefix.len() implies #[trigger] prefix[j].source_id_spec() != id by {
                        assert(mentions_source(before, prefix[j].source_id_spec()));
                        let k = choose|k: int|
                            0 <= k < before.len() && #[trigger] before[k].source_id_spec() == prefix[j].source_id_spec();
                        if k < position {
                            assert(before[k].source_id_spec()@ < id@);
                        } else {
                            if k > position {
                                assert(before[position as int].source_id_spec()@ < before[k].source_id_spec()@);
                            }
                            assert(before[position as int].source_id_spec()@ >= id@);
                            assert(before[position as int].source_id_spec()@ != id@);
                        }
                    }
                    assert forall|k: int| 0 <= k < kept@.len() implies has_first_record(
                        next_prefix,
                        #[trigger] kept@[k],
                    ) by {
                        if k == position {
                            assert forall|j: int| 0 <= j < index implies #[trigger] next_prefix[j].source_id_spec()
                                != kept@[k].source_id_spec() by {
                                assert(next_prefix[j] == prefix[j]);
                            }
                            assert(is_first_record_at(next_prefix, index as int, kept@[k]));
                        } else {
                            let old_k = if k < position { k } else { k - 1 };
                            assert(kept@[k] == before[old_k]);
                            assert(has_first_record(prefix, before[old_k]));
                            let i = choose|i: int| is_first_record_at(prefix, i, before[old_k]);
                            assert(next_prefix[i] == prefix[i]);
                            assert forall|j: int| 0 <= j < i implies #[trigger] next_prefix[j].source_id_spec()
                                != kept@[k].source_id_spec() by {
                                assert(next_prefix[j] == prefix[j]);
                            }
                            assert(is_first_record_at(next_prefix, i, kept@[k]));
                        }
                    }
                    assert forall|i: int| 0 <= i < next_prefix.len() implies mentions_source(
                        kept@,
                        (#[trigger] next_prefix[i]).source_id_spec(),
                    ) by {
                        if i < prefix.len() {
                            assert(next_prefix[i] == prefix[i]);
                            assert(mentions_source(before, prefix[i].source_id_spec()));
                            let k = choose|k: int|
                                0 <= k < before.len() && #[trigger] before[k].source_id_spec() == prefix[i].source_id_spec();
                            if k < position {
                                assert(kept@[k] == before[k]);
                            } else {
                                assert(kept@[k + 1] == before[k]);
                            }
                        } else {
                            assert(kept@[position as int].source_id_spec() == next_prefix[i].source_id_spec());
                        }
                    }
                    assert(first_record_per_source(next_prefix, kept@));
                }
            }
            index = index + 1;
        }
        proof {
            assert(source_provenance@.take(source_provenance.len() as int) == source_provenance@);
        }
        let mut source_ids: Vec<SourceId> = Vec::new();
        let mut semantic_roles: Vec<SemanticRolePath> = Vec::new();
        let mut all_groups: Vec<GroupId> = Vec::new();
        let mut position: usize = 0;
        while position < kept.len()
            invariant
                position <= kept.len(),
                source_ids.len() == position,
                semantic_roles.len() == position,
                forall|k: int|
                    0 <= k < position ==> #[trigger] source_ids@[k] == kept@[k].source_id_spec()
                        && semantic_roles@[k] == kept@[k].semantic_role_spec(),
                forall|g: GroupId|
                    #[trigger] all_groups@.contains(g) <==> exists|k: int|
                        0 <= k < position && kept@[k].group_ids_spec().contains(g),
            decreases kept.len() - position,
        {
            let record = &kept[position];
            let ghost ids_before = source_ids@;
            let ghost roles_before = semantic_roles@;
            source_ids.push(record.source_id);
            semantic_roles.push(record.semantic_role);
            proof {
                assert forall|k: int| 0 <= k < position + 1 implies #[trigger] source_ids@[k]
                    == kept@[k].source_id_spec() && semantic_roles@[k] == kept@[k].semantic_role_spec() by {
                    if k < position {
                        assert(source_ids@[k] == ids_before[k]);
                        assert(semantic_roles@[k] == roles_before[k]);
                    }
                }
            }
            let groups = record.group_ids.as_slice();
            let ghost groups_before = all_groups@;
            let mut g: usize = 0;
            while g < groups.len()
                invariant
                    g <= groups.len(),
                    groups@ == kept@[position as int].group_ids_spec(),
                    all_groups@ == groups_before + groups@.take(g as int),
                decreases groups.len() - g,
            {
                all_groups.push(groups[g]);
                proof {
                    assert(groups@.take(g + 1) == groups@.take(g as int).push(groups@[g as int]));
                }
                g = g + 1;
            }
            proof {
                assert(groups@.take(groups.len() as int) == groups@);
                assert forall|x: GroupId| #[trigger] all_groups@.contains(x) <==> exists|k: int|
                    0 <= k < position + 1 && kept@[k].group_ids_spec().contains(x) by {
                    if all_groups@.contains(x) {
                        let m = choose|m: int| 0 <= m < all_groups@.len() && all_groups@[m] == x;
                        if m < groups_before.len() {
                            assert(groups_before[m] == x);
                            assert(groups_before.contains(x));
                        } else {
                            assert(groups@[m - groups_before.len()] == x);
                            assert(kept@[position as int].group_ids_spec().contains(x));
                        }
                    }
                    if exists|k: int| 0 <= k < position + 1 && kept@[k].group_ids_spec().contains(x) {
                        let k = choose|k: int| 0 <= k < position + 1 && kept@[k].group_ids_spec().contains(x);
                        if k < position {
                            assert(groups_before.contains(x));
                            let m = choose|m: int| 0 <= m < groups_before.len() && groups_before[m] == x;
                            assert(all_groups@[m] == x);
                        } else {
                            let m = choose|m: int| 0 <= m < groups@.len() && groups@[m] == x;
                            assert(all_groups@[groups_before.len() + m] == x);
                        }
                    }
                }
            }
            position = position + 1;
        }
        let group_ids = sorted_unique_group_ids(all_groups);
        Self { source_provenance: kept, source_ids, group_ids, semantic_roles, backend_invoked: false }
    }

    /// Returns source/group/role associations for the complete proof.
    pub fn source_provenance(&self) -> (sources: &[SharedLevelSetConflictSourceEvidence])
        ensures
            sources@ == self.source_provenance_spec(),
    {
        self.source_provenance.as_slice()
    }

    /// Returns every caller-owned relation source in stable order.
    pub fn source_ids(&self) -> (ids: &[SourceId])
        ensures
            ids@ == self.source_ids_spec(),
    {
        self.source_ids.as_slice()
    }

    /// Returns every shared level set participating in the proof in stable order.
    pub fn group_ids(&self) -> (ids: &[GroupId])
        ensures
            ids@ == self.group_ids_spec(),
    {
        self.group_ids.as_slice()
    }

    /// Returns the stable semantic role paired with each reported source.
    pub fn semantic_roles(&self) -> (roles: &[SemanticRolePath])
        ensures
            roles@ == self.semantic_roles_spec(),
    {
        self.semantic_roles.as_slice()
    }

    /// Reports whether a backend was invoked before proving the contradiction.
    pub fn backend_invoked(&self) -> (invoked: bool)
        ensures
            invoked == self.backend_invoked_spec(),
    {
        self.backend_invoked
    }
}

} // verus!
