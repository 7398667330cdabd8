use georbf::value_forest::{
    canonical_support_bits, AbsoluteTarget, EdgeOutcome, ValueConstraintForest, ValueNode,
};
use georbf::{GroupId, SourceId};

fn src(id: u64) -> SourceId {
    SourceId::new(id)
}

fn group(id: u64) -> ValueNode {
    ValueNode::Group(GroupId::new(id))
}

const POINT: [u64; 3] = [1, 2, 3];

fn point() -> ValueNode {
    ValueNode::Support(POINT[0], POINT[1], POINT[2])
}

#[test]
fn repeated_anchor_is_redundant_and_a_different_one_conflicts() {
    let mut forest = ValueConstraintForest::new();
    assert!(matches!(forest.add_absolute_target(point(), 10, src(1)), EdgeOutcome::Independent));
    assert!(matches!(forest.add_absolute_target(point(), 10, src(2)), EdgeOutcome::Redundant));
    match forest.add_absolute_target(point(), 11, src(3)) {
        EdgeOutcome::Conflict { proof_source_ids, proof_group_ids, first_absolute, second_absolute } => {
            assert_eq!(proof_source_ids, vec![src(1), src(3)]);
            assert!(proof_group_ids.is_empty());
            assert_eq!(first_absolute, AbsoluteTarget { node: 0, source_id: src(1), target: 10 });
            assert_eq!(second_absolute, AbsoluteTarget { node: 0, source_id: src(3), target: 11 });
        }
        other => panic!("expected a conflict, got {other:?}"),
    }
    let anchor = forest.absolute_target_for_support(POINT).expect("the point is anchored");
    assert_eq!(anchor.source_id, src(1));
    assert_eq!(anchor.target, 10);
}

#[test]
fn equalities_carry_anchors_with_their_proof() {
    let mut forest = ValueConstraintForest::new();
    assert!(matches!(forest.add_equality_edge(group(1), point(), src(5)), EdgeOutcome::Independent));
    assert!(matches!(forest.add_absolute_target(point(), 7, src(6)), EdgeOutcome::Independent));
    let proof = forest.absolute_proof_for_group(GroupId::new(1)).expect("the group is anchored");
    assert_eq!(proof.target, 7);
    assert_eq!(proof.source_ids, vec![src(5), src(6)]);
    assert!(forest.absolute_proof_for_group(GroupId::new(2)).is_none());
    assert!(forest.absolute_target_for_support([9, 9, 9]).is_none());
}

#[test]
fn joining_two_anchors_with_different_targets_is_a_conflict() {
    let mut forest = ValueConstraintForest::new();
    forest.add_equality_edge(group(1), point(), src(5));
    forest.add_absolute_target(point(), 7, src(6));
    assert!(matches!(forest.add_absolute_target(group(2), 9, src(7)), EdgeOutcome::Independent));
    match forest.add_equality_edge(group(1), group(2), src(8)) {
        EdgeOutcome::Conflict { proof_source_ids, proof_group_ids, first_absolute, second_absolute } => {
            assert_eq!(proof_source_ids, vec![src(6), src(5), src(8), src(7)]);
            assert_eq!(proof_group_ids, vec![GroupId::new(1), GroupId::new(2)]);
            assert_eq!(first_absolute, AbsoluteTarget { node: 1, source_id: src(6), target: 7 });
            assert_eq!(second_absolute, AbsoluteTarget { node: 2, source_id: src(7), target: 9 });
        }
        other => panic!("expected a conflict, got {other:?}"),
    }
    assert!(forest.absolute_proof_for_group(GroupId::new(2)).map(|p| p.target) == Some(9));
}

#[test]
fn equal_anchors_join_redundantly_and_joined_nodes_stay_redundant() {
    let mut forest = ValueConstraintForest::new();
    forest.add_absolute_target(group(1), 4, src(1));
    forest.add_absolute_target(group(2), 4, src(2));
    assert!(matches!(forest.add_equality_edge(group(1), group(2), src(3)), EdgeOutcome::Redundant));
    assert!(matches!(forest.add_equality_edge(group(2), group(1), src(4)), EdgeOutcome::Redundant));
    assert!(matches!(forest.add_equality_edge(group(3), group(3), src(5)), EdgeOutcome::Redundant));
    assert!(matches!(forest.add_equality_edge(group(3), group(2), src(6)), EdgeOutcome::Independent));
    let proof = forest.absolute_proof_for_group(GroupId::new(3)).expect("joined to an anchor");
    assert_eq!(proof.target, 4);
}

#[test]
fn incidence_identity_canonicalizes_signed_zero_coordinates() {
    let bits = |support: [f64; 3]| canonical_support_bits(support.map(f64::to_bits));
    assert_eq!(bits([-0.0, 1.0, 0.0]), bits([0.0, 1.0, -0.0]));
    assert_eq!(georbf::value_forest::canonical_scalar_bits((-0.0_f64).to_bits()), 0);
    assert_eq!(georbf::value_forest::canonical_scalar_bits(2.5_f64.to_bits()), 2.5_f64.to_bits());
}
