use georbf::diagnostics::{
    AllSourceRecoveryEvidence, AllSourceRecoveryEvidenceParts, BackendAttemptSettings,
    BackendFingerprint, BackendFingerprintParts, CanonicalEvidenceSource, CapacityEvidence,
    CapacityFailureKind, CubicPrecisionRescueConclusion, CubicPrecisionRescueEvidence,
    InertiaCounts, InertiaEvidence, ScalingSummary, SharedLevelSetConflictSourceEvidence,
    SharedLevelSetRelationConflictEvidence,
    SolveAttemptKind, UnidentifiedAdditiveGaugeEvidence, UninformativeSharedLevelSetEvidence,
    UnresolvedAxialNormalEvidence,
};
use georbf::faer_backend::{backend_fingerprint, lblt_attempt_settings};
use georbf::fit::{CubicProblemSizeParts, ProblemSize, ScalarRelationCounts};
use georbf::functional::sorted_unique_group_ids;
use georbf::greedy::{greedy_model_audit, GreedyHookBody};
use georbf::kernel::{FieldEnergyNormalizationError, KernelConfig, KernelError, KernelKind};
use georbf::{ConstraintError, Error, GroupId, ModelType, SemanticRolePath, SourceId};

#[test]
fn error_names_and_messages() {
    assert_eq!(Error::NoInterfaceData.surfe_exception_name(), "nointerfacedata");
    assert_eq!(Error::UnknownModel.message(), "Modelling mode code unknown; choose 1 - 5");
    assert_eq!(
        Error::PredictorCorrectorSolverFailure.surfe_exception_name(),
        "pcquadratricsolverfailure"
    );
    let all = Error::all();
    assert_eq!(all.len(), 23);
    assert_eq!(all[0], Error::NoInterfaceData);
    assert_eq!(all[22], Error::IncorrectArrayDimensions);
    for (i, first) in all.iter().enumerate() {
        for second in &all[i + 1..] {
            assert_ne!(first.surfe_exception_name(), second.surfe_exception_name());
            assert_ne!(first.message(), second.message());
        }
    }
}

#[test]
fn exception_chain_text() {
    assert_eq!(Error::format_surfe_exception_chain(&[]), "Exceptions thrown: ");
    assert_eq!(
        Error::format_surfe_exception_chain(&[Error::NoPlanarData]),
        "Exceptions thrown: No planar data"
    );
    assert_eq!(
        Error::format_surfe_exception_chain(&[Error::NoInterfaceData, Error::MissingInterpolant]),
        "Exceptions thrown: No interface data, Interpolant has not yet been computed"
    );
}

fn equality_parts() -> CubicProblemSizeParts {
    CubicProblemSizeParts {
        input_observations: 5,
        scalar_hard_relations: 7,
        scalar_soft_relations: 2,
        canonical_hard_equalities: 6,
        canonical_soft_equalities: 2,
        quadratic_objective_terms: 2,
        linear_objective_terms: 1,
        affine_inequality_constraints: 3,
        center_coefficients: 10,
        semantic_latents: 2,
        solver_hard_equalities: 6,
        auxiliary_variables: 1,
    }
}

#[test]
fn equality_problem_size() {
    let size = ProblemSize::cubic_equality(equality_parts()).unwrap();
    assert_eq!(size.primal_variables(), Some(16));
    assert_eq!(size.equality_constraints(), Some(10));
    assert_eq!(size.kkt_dimension(), Some(26));
    assert_eq!(size.cone_blocks(), 0);
    assert_eq!(size.input_observations(), 5);
    assert_eq!(size.scalar_hard_relations(), 7);
    assert_eq!(size.scalar_soft_relations(), 2);
    assert_eq!(size.canonical_hard_equalities(), Some(6));
    assert_eq!(size.canonical_soft_equalities(), Some(2));
    assert_eq!(size.center_coefficients(), Some(10));
    assert_eq!(size.semantic_latents(), 2);
    assert_eq!(size.auxiliary_variables(), 1);
    assert_eq!(size.quadratic_objective_terms(), 2);
    assert_eq!(size.linear_objective_terms(), 1);
    assert_eq!(size.affine_inequality_constraints(), 3);
}

#[test]
fn qp_problem_size_and_overflow() {
    let size = ProblemSize::cubic_qp(equality_parts()).unwrap();
    assert_eq!(size.primal_variables(), Some(13));
    assert_eq!(size.equality_constraints(), Some(6));
    assert_eq!(size.kkt_dimension(), None);
    let mut huge = equality_parts();
    huge.center_coefficients = usize::MAX - 3;
    assert_eq!(ProblemSize::cubic_equality(huge), None);
    assert_eq!(
        ProblemSize::cubic_qp(huge).and_then(|size| size.primal_variables()),
        Some(usize::MAX)
    );
    huge.center_coefficients = usize::MAX - 2;
    assert_eq!(ProblemSize::cubic_qp(huge), None);
    huge.center_coefficients = usize::MAX - 4;
    huge.semantic_latents = 0;
    huge.solver_hard_equalities = 0;
    assert_eq!(ProblemSize::cubic_equality(huge), None);
    huge.auxiliary_variables = 0;
    assert!(ProblemSize::cubic_qp(huge).is_some());
    assert_eq!(ScalarRelationCounts { hard: 3, soft: 4 }.total(), Some(7));
    assert_eq!(ScalarRelationCounts { hard: usize::MAX, soft: 1 }.total(), None);
}

#[test]
fn conflict_sources_sort_and_deduplicate_groups() {
    let evidence = SharedLevelSetConflictSourceEvidence::new(
        SourceId::new(9),
        vec![GroupId::new(5), GroupId::new(1), GroupId::new(5), GroupId::new(3)],
        SemanticRolePath::new(2),
    );
    assert_eq!(evidence.source_id(), &SourceId::new(9));
    assert_eq!(
        evidence.group_ids(),
        &[GroupId::new(1), GroupId::new(3), GroupId::new(5)]
    );
    assert_eq!(evidence.semantic_role().code(), 2);
    assert!(sorted_unique_group_ids(Vec::new()).is_empty());
}

#[test]
fn evidence_records_keep_their_fields() {
    let axial = UnresolvedAxialNormalEvidence::new(SourceId::new(4), [1, 2, 3]);
    assert_eq!(axial.source_id().value(), 4);
    assert_eq!(axial.input_axis(), [1, 2, 3]);
    assert!(!axial.backend_invoked());
    let gauge = UnidentifiedAdditiveGaugeEvidence::new(vec![SourceId::new(1)], vec![], true);
    assert_eq!(gauge.source_ids(), &[SourceId::new(1)]);
    assert!(gauge.group_ids().is_empty());
    assert!(gauge.backend_invoked());
    let source = CanonicalEvidenceSource::new(SourceId::new(2), vec![GroupId::new(7)], SemanticRolePath::new(1));
    assert_eq!(source.group_ids(), &[GroupId::new(7)]);
    let lonely = UninformativeSharedLevelSetEvidence::new(GroupId::new(3), SourceId::new(8), false);
    assert_eq!(lonely.group_id().value(), 3);
    assert_eq!(lonely.member_source_id().value(), 8);
    let rescue = CubicPrecisionRescueEvidence::new(2, 3, 106, CubicPrecisionRescueConclusion::Positive);
    assert_eq!(rescue.first_mode(), 2);
    assert_eq!(rescue.mode_count(), 3);
    assert_eq!(rescue.precision_bits(), 106);
    assert_eq!(rescue.conclusion(), CubicPrecisionRescueConclusion::Positive);
    let inertia = InertiaEvidence::new(InertiaCounts::new(4, 2, 0), InertiaCounts::new(3, 2, 1), true);
    assert_eq!(inertia.expected().positive(), 4);
    assert_eq!(inertia.observed().zero(), 1);
    assert_eq!(inertia.observed().negative(), 2);
    let recovery = AllSourceRecoveryEvidence::new(AllSourceRecoveryEvidenceParts {
        canonical_hard_relation_count: 3,
        canonical_soft_relation_count: 1,
        participating_sources: vec![SourceId::new(1), SourceId::new(2)],
        recovered_sources: vec![SourceId::new(1)],
        representer_count: 5,
        solver_relation_row_count: 4,
        recovery_edge_count: 6,
        verified: false,
    });
    assert_eq!(recovery.participating_sources().len(), 2);
    assert_eq!(recovery.recovered_sources(), &[SourceId::new(1)]);
    assert_eq!(recovery.recovery_edge_count(), 6);
    assert!(!recovery.verified());
    let capacity = CapacityEvidence::new(CapacityFailureKind::LimitExceeded, 100, Some(200), false, false);
    assert_eq!(capacity.kind(), CapacityFailureKind::LimitExceeded);
    assert_eq!(capacity.planned_peak_bytes(), Some(200));
    assert_eq!(capacity.limit_bytes(), 100);
}

#[test]
fn backend_identity_and_settings() {
    let fingerprint = backend_fingerprint("LBLT Bunch-Kaufman", "x86_64", "linux");
    assert_eq!(fingerprint.schema_version(), 1);
    assert_eq!(fingerprint.crate_name(), "faer");
    assert_eq!(fingerprint.crate_version(), "0.24.4");
    assert_eq!(fingerprint.features(), ["linalg", "std"]);
    assert_eq!(fingerprint.enabled_features(), &["linalg".to_string(), "std".to_string()]);
    assert_eq!(fingerprint.algorithm(), "LBLT Bunch-Kaufman");
    assert_eq!(fingerprint.target_os(), "linux");
    assert_eq!(fingerprint.requested_threads(), 1);
    assert_eq!(fingerprint.actual_threads(), 1);

    let single = BackendFingerprint::new(BackendFingerprintParts {
        schema_version: 2,
        crate_name: "clarabel",
        crate_version: "1.0",
        features: vec!["std"],
        algorithm: "QP",
        target_arch: "aarch64",
        target_os: "macos",
        requested_threads: 1,
        actual_threads: 1,
    });
    assert_eq!(single.features(), ["std", ""]);
    assert_eq!(single.target_arch(), "aarch64");

    let lblt = lblt_attempt_settings(3);
    assert_eq!(lblt.kind(), SolveAttemptKind::BunchKaufmanRefinement);
    assert_eq!(lblt.pivoting(), Some("PartialDiag"));
    assert_eq!(lblt.block_size(), Some(64));
    assert_eq!(lblt.parallelism_threshold(), Some(16384));
    assert_eq!(
        lblt.factor_workspace_source(),
        Some("faer::linalg::cholesky::lblt::factor::cholesky_in_place_scratch")
    );
    assert_eq!(lblt.maximum_refinement_steps(), Some(3));
    assert_eq!(lblt.settings_id(), None);
    let svd = BackendAttemptSettings::full_svd("svd-v1", "thin", "full");
    assert_eq!(svd.kind(), SolveAttemptKind::FullSvdRescue);
    assert_eq!(svd.settings_id(), Some("svd-v1"));
    assert_eq!(svd.left_vectors(), Some("thin"));
    assert_eq!(svd.right_vectors(), Some("full"));
    assert_eq!(svd.pivoting(), None);
    let qp = BackendAttemptSettings::clarabel(SolveAttemptKind::ClarabelRobust, "robust");
    assert_eq!(qp.kind(), SolveAttemptKind::ClarabelRobust);
    assert_eq!(qp.settings_id(), Some("robust"));
    assert_eq!(qp.block_size(), None);
    let scaling = ScalingSummary::new("ruiz", 8, 0);
    assert_eq!(scaling.method(), "ruiz");
    assert_eq!(scaling.rounds(), 8);
    assert_eq!(scaling.saturated_outside_target(), 0);
}

#[test]
fn kernel_geometry_and_greedy_records() {
    assert_eq!(KernelConfig::cubic().kind(), KernelKind::Cubic);
    assert_eq!(KernelConfig::default(), KernelConfig::cubic());
    assert_eq!(
        FieldEnergyNormalizationError::NotPositive.message(),
        "FieldEnergy normalization is not positive"
    );
    assert_eq!(
        KernelError::LinearDerivativeUnavailable.message(),
        "the frozen linear-radius kernel does not implement derivatives"
    );
    assert_eq!(ConstraintError::ZeroTangent.message(), "tangent vector must be non-zero");
    let audit = greedy_model_audit();
    assert_eq!(audit[4].model, ModelType::VectorField);
    assert_eq!(audit[4].greedy_factory_model, ModelType::ContinuousProperty);
    assert_eq!(audit[3].minimal, GreedyHookBody::TodoStub);
    assert_eq!(audit[3].residual, GreedyHookBody::Implemented);
    assert!(audit.iter().all(|entry| !entry.reachable_from_surfe_api));
}

#[test]
fn shared_level_conflict_keeps_the_first_record_of_each_source() {
    let record = |source: u64, groups: Vec<u64>, role: u64| {
        SharedLevelSetConflictSourceEvidence::new(
            SourceId::new(source),
            groups.into_iter().map(GroupId::new).collect(),
            SemanticRolePath::new(role),
        )
    };
    let evidence = SharedLevelSetRelationConflictEvidence::new(vec![
        record(7, vec![4, 2], 1),
        record(3, vec![9], 2),
        record(7, vec![8], 3),
        record(5, vec![2], 4),
    ]);
    assert_eq!(
        evidence.source_ids(),
        &[SourceId::new(3), SourceId::new(5), SourceId::new(7)]
    );
    assert_eq!(
        evidence.semantic_roles(),
        &[SemanticRolePath::new(2), SemanticRolePath::new(4), SemanticRolePath::new(1)]
    );
    assert_eq!(
        evidence.group_ids(),
        &[GroupId::new(2), GroupId::new(4), GroupId::new(9)]
    );
    assert_eq!(evidence.source_provenance().len(), 3);
    assert_eq!(
        evidence.source_provenance()[2].group_ids(),
        &[GroupId::new(2), GroupId::new(4)]
    );
    assert!(!evidence.backend_invoked());
    let empty = SharedLevelSetRelationConflictEvidence::new(Vec::new());
    assert!(empty.source_ids().is_empty());
    assert!(empty.group_ids().is_empty());
}
