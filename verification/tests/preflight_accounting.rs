use georbf::fit::ScalarRelationCounts;
use georbf::inventory::{
    linear_objective_term_count, quadratic_objective_term_count, scalar_relation_counts,
    source_identifier_bytes, BoundEntry, CovarianceGroupEntry, CovarianceMemberEntry,
    Enforcement, GaugeEntry, GaugeReference, GroupName, LevelRelationEntry, NormalEntry,
    ObservationEntry, ObservationKind, PointRelationEntry, PolarityEntry, ProblemInventory,
    SeparationEntry, SharedLevelSetEntry, SourceName,
};
use georbf::preflight::{
    declared_affine_side_count, has_absolute_reference, input_observation_count,
    references_group, structural_preflight, unidentified_additive_gauge,
    uninformative_shared_level_sets, unresolved_axial_normals,
};
use georbf::{GroupId, SourceId};

fn src(id: u64, bytes: usize) -> SourceName {
    SourceName { id: SourceId::new(id), bytes }
}

fn grp(id: u64, bytes: usize) -> GroupName {
    GroupName { id: GroupId::new(id), bytes }
}

fn obs(kind: ObservationKind, soft: bool, source: SourceName) -> ObservationEntry {
    ObservationEntry { kind, soft, source }
}

fn normal(
    source: SourceName,
    bits: [u64; 3],
    projection_components: usize,
    direction_soft: bool,
    slope: Enforcement,
) -> NormalEntry {
    NormalEntry { source, direction_bits: bits, projection_components, direction_soft, slope }
}

fn empty() -> ProblemInventory {
    ProblemInventory {
        observations: vec![],
        shared_level_sets: vec![],
        covariance_groups: vec![],
        additive_field_gauges: vec![],
        field_value_bounds: vec![],
        directional_derivative_intervals: vec![],
        field_separation_intervals: vec![],
        point_to_level_set_relations: vec![],
        shared_level_set_relations: vec![],
        directed_normals: vec![],
        axial_normals: vec![],
        polarity_resolutions: vec![],
    }
}

/// One input of every kind, with hand-counted totals.
fn mixed() -> ProblemInventory {
    ProblemInventory {
        observations: vec![
            obs(ObservationKind::FieldValue, false, src(1, 3)),
            obs(ObservationKind::Gradient, true, src(2, 4)),
            obs(ObservationKind::TangentDirection, false, src(3, 2)),
        ],
        shared_level_sets: vec![
            SharedLevelSetEntry { group: grp(10, 5), members: vec![src(4, 2)] },
            SharedLevelSetEntry { group: grp(11, 3), members: vec![src(5, 1), src(6, 2)] },
        ],
        covariance_groups: vec![CovarianceGroupEntry {
            group: grp(12, 2),
            members: vec![CovarianceMemberEntry {
                source: src(7, 3),
                field_value: false,
                scalar_residuals: 3,
            }],
            scalar_residuals: 3,
        }],
        additive_field_gauges: vec![],
        field_value_bounds: vec![BoundEntry {
            source: src(8, 4),
            lower: Some(Enforcement::Hard),
            upper: Some(Enforcement::QuadraticPenalty),
        }],
        directional_derivative_intervals: vec![BoundEntry {
            source: src(9, 1),
            lower: None,
            upper: Some(Enforcement::LinearViolationPenalty),
        }],
        field_separation_intervals: vec![SeparationEntry {
            source: src(10, 2),
            reference_group: grp(10, 5),
            target_group: grp(11, 3),
            lower: Enforcement::Hard,
            upper: Enforcement::Hard,
        }],
        point_to_level_set_relations: vec![PointRelationEntry {
            source: src(11, 1),
            group: grp(10, 5),
            enforcement: Enforcement::QuadraticPenalty,
        }],
        shared_level_set_relations: vec![LevelRelationEntry {
            source: src(12, 2),
            groups: vec![grp(10, 5), grp(11, 3)],
            enforcement: Enforcement::Hard,
        }],
        directed_normals: vec![normal(
            src(13, 1),
            [0, 0, 0],
            2,
            true,
            Enforcement::LinearViolationPenalty,
        )],
        axial_normals: vec![
            normal(src(14, 2), [1, 2, 3], 3, false, Enforcement::Hard),
            normal(src(15, 1), [4, 5, 6], 1, false, Enforcement::QuadraticPenalty),
        ],
        polarity_resolutions: vec![PolarityEntry { source: src(16, 2), axial_source: src(14, 2) }],
    }
}

/// No input pins the additive constant; two single-member level sets are
/// referenced by nothing else.
fn shift_invariant() -> ProblemInventory {
    let mut inv = empty();
    inv.observations = vec![
        obs(ObservationKind::Gradient, false, src(30, 1)),
        obs(ObservationKind::TangentDirection, true, src(20, 1)),
    ];
    inv.covariance_groups = vec![CovarianceGroupEntry {
        group: grp(9, 1),
        members: vec![CovarianceMemberEntry {
            source: src(22, 1),
            field_value: false,
            scalar_residuals: 1,
        }],
        scalar_residuals: 1,
    }];
    inv.shared_level_sets = vec![
        SharedLevelSetEntry { group: grp(7, 1), members: vec![src(25, 1)] },
        SharedLevelSetEntry { group: grp(3, 1), members: vec![src(21, 1)] },
        SharedLevelSetEntry { group: grp(5, 1), members: vec![src(40, 1), src(41, 1)] },
    ];
    inv.point_to_level_set_relations = vec![PointRelationEntry {
        source: src(50, 1),
        group: grp(5, 1),
        enforcement: Enforcement::Hard,
    }];
    inv
}

#[test]
fn scalar_relations_count_every_declared_input() {
    assert_eq!(
        scalar_relation_counts(&mixed()),
        Some(ScalarRelationCounts { hard: 14, soft: 13 })
    );
    assert_eq!(scalar_relation_counts(&empty()), Some(ScalarRelationCounts { hard: 0, soft: 0 }));
}

#[test]
fn objective_terms_count_penalties() {
    assert_eq!(quadratic_objective_term_count(&mixed()), Some(6));
    assert_eq!(linear_objective_term_count(&mixed()), Some(2));
    assert_eq!(quadratic_objective_term_count(&empty()), Some(0));
}

#[test]
fn identifier_bytes_follow_report_multiplicities() {
    assert_eq!(source_identifier_bytes(&mixed()), Some(113));
    assert_eq!(source_identifier_bytes(&empty()), Some(0));
}

#[test]
fn gradient_identifier_bytes_overflow_is_none() {
    let mut inv = empty();
    inv.observations = vec![obs(ObservationKind::Gradient, false, src(1, usize::MAX / 2))];
    assert_eq!(source_identifier_bytes(&inv), None);
    assert_eq!(scalar_relation_counts(&inv), Some(ScalarRelationCounts { hard: 3, soft: 0 }));
}

#[test]
fn covariance_names_that_overflow_together_are_none() {
    let mut inv = empty();
    inv.covariance_groups = vec![CovarianceGroupEntry {
        group: grp(1, usize::MAX),
        members: vec![CovarianceMemberEntry {
            source: src(2, 1),
            field_value: false,
            scalar_residuals: 0,
        }],
        scalar_residuals: 0,
    }];
    assert_eq!(source_identifier_bytes(&inv), None);
}

#[test]
fn relation_overflow_is_none() {
    let mut inv = empty();
    inv.directed_normals = vec![
        normal(src(1, 1), [0, 0, 0], usize::MAX, false, Enforcement::Hard),
        normal(src(2, 1), [0, 0, 0], 1, false, Enforcement::Hard),
    ];
    assert_eq!(scalar_relation_counts(&inv), None);
    assert_eq!(linear_objective_term_count(&inv), Some(0));
}

#[test]
fn input_observations_and_affine_sides() {
    assert_eq!(input_observation_count(&mixed()), 12);
    assert_eq!(declared_affine_side_count(&mixed()), 10);
    assert_eq!(input_observation_count(&empty()), 0);
}

#[test]
fn group_references_come_from_other_inputs() {
    let inv = mixed();
    assert!(references_group(&inv, GroupId::new(10)));
    assert!(references_group(&inv, GroupId::new(11)));
    assert!(!references_group(&inv, GroupId::new(12)));
    let mut gauge = empty();
    gauge.additive_field_gauges = vec![GaugeEntry {
        source: src(1, 1),
        reference: GaugeReference::LevelSet(grp(4, 1)),
    }];
    assert!(references_group(&gauge, GroupId::new(4)));
    assert!(!references_group(&gauge, GroupId::new(5)));
}

#[test]
fn unresolved_axial_normals_skip_resolved_ones() {
    let evidence = unresolved_axial_normals(&mixed());
    assert_eq!(evidence.len(), 1);
    assert_eq!(*evidence[0].source_id(), SourceId::new(15));
    assert_eq!(evidence[0].input_axis(), [4, 5, 6]);
    assert!(!evidence[0].backend_invoked());
}

#[test]
fn uninformative_level_sets_are_sorted() {
    assert!(uninformative_shared_level_sets(&mixed()).is_empty());
    let evidence = uninformative_shared_level_sets(&shift_invariant());
    assert_eq!(evidence.len(), 2);
    assert_eq!(*evidence[0].group_id(), GroupId::new(3));
    assert_eq!(*evidence[0].member_source_id(), SourceId::new(21));
    assert_eq!(*evidence[1].group_id(), GroupId::new(7));
    assert_eq!(*evidence[1].member_source_id(), SourceId::new(25));
}

#[test]
fn unpinned_constant_lists_every_source_in_order() {
    assert!(has_absolute_reference(&mixed()));
    assert!(unidentified_additive_gauge(&mixed()).is_none());
    let inv = shift_invariant();
    assert!(!has_absolute_reference(&inv));
    let evidence = unidentified_additive_gauge(&inv).expect("nothing pins the constant");
    let expected: Vec<SourceId> =
        [20, 21, 22, 25, 30, 40, 41, 50].iter().map(|&id| SourceId::new(id)).collect();
    assert_eq!(evidence.source_ids(), expected.as_slice());
    let groups: Vec<GroupId> = [7, 3, 5].iter().map(|&id| GroupId::new(id)).collect();
    assert_eq!(evidence.group_ids(), groups.as_slice());
    assert!(!evidence.backend_invoked());
}

#[test]
fn structural_preflight_records_the_conservative_size() {
    let preflight = structural_preflight(&mixed());
    let size = preflight.problem_size;
    assert_eq!(size.input_observations(), 12);
    assert_eq!(size.scalar_hard_relations(), 14);
    assert_eq!(size.scalar_soft_relations(), 13);
    assert_eq!(size.semantic_latents(), 2);
    assert_eq!(size.quadratic_objective_terms(), 6);
    assert_eq!(size.linear_objective_terms(), 2);
    assert_eq!(size.affine_inequality_constraints(), 10);
    assert_eq!(size.canonical_hard_equalities(), None);
    assert_eq!(size.kkt_dimension(), None);
    assert_eq!(preflight.scalar_relation_count, 27);
    assert_eq!(preflight.source_identifier_bytes, 113);
    assert_eq!(preflight.unresolved_axial_normals.len(), 1);
    assert!(preflight.uninformative_shared_level_sets.is_empty());
    assert!(preflight.unidentified_additive_gauge.is_none());
}

#[test]
fn structural_preflight_saturates_overflowing_counts() {
    let mut inv = empty();
    inv.directed_normals = vec![
        normal(src(1, usize::MAX), [0, 0, 0], usize::MAX, true, Enforcement::Hard),
        normal(src(2, 1), [0, 0, 0], 1, true, Enforcement::Hard),
    ];
    let preflight = structural_preflight(&inv);
    assert_eq!(preflight.problem_size.scalar_hard_relations(), usize::MAX);
    assert_eq!(preflight.problem_size.scalar_soft_relations(), usize::MAX);
    assert_eq!(preflight.scalar_relation_count, usize::MAX);
    assert_eq!(preflight.source_identifier_bytes, usize::MAX);
    assert_eq!(preflight.problem_size.quadratic_objective_terms(), 2);
}
