use georbf::diagnostics::CanonicalEvidenceSource;
use georbf::witness::{
    ConflictWitnessEvidence, ConflictWitnessEvidenceParts, ConflictWitnessRelationEvidence, RelationGraphConflictEvidence,
    RelationGraphConflictEvidenceParts,
};
use georbf::{GroupId, SemanticRolePath, SourceId};

fn source(id: u64, role: u64, groups: &[u64]) -> CanonicalEvidenceSource {
    CanonicalEvidenceSource::new(
        SourceId::new(id),
        groups.iter().map(|&g| GroupId::new(g)).collect(),
        SemanticRolePath::new(role),
    )
}

fn ids(values: &[SourceId]) -> Vec<u64> {
    values.iter().map(|id| id.value()).collect()
}

#[test]
fn witness_orders_relations_stably_by_source_and_role() {
    let relations = vec![
        ConflictWitnessRelationEvidence::new(source(7, 1, &[]), 1),
        ConflictWitnessRelationEvidence::new(source(3, 2, &[]), 2),
        ConflictWitnessRelationEvidence::new(source(7, 0, &[]), 3),
        ConflictWitnessRelationEvidence::new(source(3, 2, &[9]), 4),
    ];
    let evidence = ConflictWitnessEvidence::new(relations, 10, 11, 12, 13, true, false);
    let order: Vec<u64> = evidence.relations().iter().map(|r| r.multiplier_bits()).collect();
    assert_eq!(order, vec![2, 4, 3, 1]);
    assert_eq!(ids(evidence.source_ids()), vec![3, 7]);
    assert_eq!(evidence.sources().len(), 4);
    assert_eq!(evidence.canonical_residual_bits(), 10);
    assert_eq!(evidence.separation_margin_bits(), 11);
    assert_eq!(evidence.residual_limit_bits(), 12);
    assert_eq!(evidence.separation_limit_bits(), 13);
    assert!(evidence.provenance_verified());
    assert!(!evidence.backend_invoked());
}

#[test]
fn witness_sources_drop_adjacent_repeats_after_sorting() {
    let parts = ConflictWitnessEvidenceParts {
        relations: Vec::new(),
        sources: vec![source(5, 1, &[2]), source(4, 0, &[]), source(5, 1, &[2]), source(5, 1, &[3])],
        canonical_residual_bits: 0,
        separation_margin_bits: 0,
        residual_limit_bits: 0,
        separation_limit_bits: 0,
        provenance_verified: false,
        backend_invoked: true,
    };
    let evidence = ConflictWitnessEvidence::new_with_sources(parts);
    let kept: Vec<(u64, Vec<u64>)> = evidence
        .sources()
        .iter()
        .map(|s| (s.source_id().value(), s.group_ids().iter().map(|g| g.value()).collect()))
        .collect();
    assert_eq!(kept, vec![(4, vec![]), (5, vec![2]), (5, vec![3])]);
    assert_eq!(ids(evidence.source_ids()), vec![4, 5]);
}

#[test]
fn relation_graph_conflict_names_the_sources_of_its_relations_in_order() {
    let parts = RelationGraphConflictEvidenceParts {
        proof_relations: vec![
            ConflictWitnessRelationEvidence::new(source(9, 0, &[1]), 5),
            ConflictWitnessRelationEvidence::new(source(2, 0, &[1]), 6),
        ],
        group_ids: vec![GroupId::new(1)],
        semantic_role: SemanticRolePath::new(4),
        first_absolute_source: SourceId::new(9),
        first_absolute_target_bits: 1.0f64.to_bits(),
        second_absolute_source: SourceId::new(2),
        second_absolute_target_bits: 2.0f64.to_bits(),
        canonical_residual_bits: 0,
        separation_margin_bits: 1.0f64.to_bits(),
        provenance_verified: true,
    };
    let evidence = RelationGraphConflictEvidence::new(parts);
    assert_eq!(ids(evidence.source_ids()), vec![9, 2]);
    assert_eq!(evidence.proof_relations().len(), 2);
    assert_eq!(evidence.group_ids().len(), 1);
    assert_eq!(evidence.semantic_role().code(), 4);
    assert_eq!(evidence.first_absolute_source().value(), 9);
    assert_eq!(f64::from_bits(evidence.second_absolute_target_bits()), 2.0);
    assert!(!evidence.backend_invoked());
    assert!(evidence.provenance_verified());
}
