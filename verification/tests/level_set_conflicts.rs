use georbf::conflicts::{shared_level_set_relation_conflicts, SharedLevelEdge};
use georbf::graph::shared_level_path;
use georbf::{GroupId, SemanticRolePath, SourceId};

fn relation(source: u64, from: usize, to: usize, positive: bool) -> SharedLevelEdge {
    SharedLevelEdge {
        source_id: SourceId::new(source),
        from,
        to,
        positive,
        semantic_role: SemanticRolePath::new(7),
    }
}

fn groups(ids: &[u64]) -> Vec<GroupId> {
    ids.iter().map(|&id| GroupId::new(id)).collect()
}

fn sources(ids: &[u64]) -> Vec<SourceId> {
    ids.iter().map(|&id| SourceId::new(id)).collect()
}

#[test]
fn breadth_first_path_follows_listed_edges() {
    // Edges: 0: 0->1, 1: 1->2, 2: 0->2, 3: 2->3.
    let targets = vec![1, 2, 2, 3];
    let adjacency = vec![vec![0, 2], vec![1], vec![3], vec![]];
    let path = shared_level_path(&targets, &adjacency, 0, 3).expect("3 is reachable");
    assert_eq!(path, vec![2, 3]);
    assert_eq!(shared_level_path(&targets, &adjacency, 0, 0), Some(vec![]));
}

#[test]
fn breadth_first_path_is_none_when_unreachable() {
    let targets = vec![1, 2, 2, 3];
    let adjacency = vec![vec![0, 2], vec![1], vec![3], vec![]];
    assert_eq!(shared_level_path(&targets, &adjacency, 3, 0), None);
    assert_eq!(shared_level_path(&targets, &adjacency, 2, 1), None);
}

#[test]
fn positive_relation_closing_a_cycle_is_a_conflict() {
    let table = groups(&[10, 11, 12]);
    let edges = vec![relation(3, 0, 1, true), relation(1, 1, 2, false), relation(2, 2, 0, false)];
    let conflicts = shared_level_set_relation_conflicts(&edges, &table);
    assert_eq!(conflicts.len(), 1);
    assert_eq!(conflicts[0].source_ids(), sources(&[1, 2, 3]).as_slice());
    assert_eq!(conflicts[0].group_ids(), groups(&[10, 11, 12]).as_slice());
    assert_eq!(conflicts[0].source_provenance().len(), 3);
    assert!(!conflicts[0].backend_invoked());
}

#[test]
fn self_relation_is_a_conflict_and_reports_are_ordered() {
    let table = groups(&[10, 11, 12]);
    let edges = vec![
        relation(5, 1, 1, false),
        relation(3, 0, 1, true),
        relation(1, 1, 2, false),
        relation(2, 2, 0, false),
    ];
    let conflicts = shared_level_set_relation_conflicts(&edges, &table);
    assert_eq!(conflicts.len(), 2);
    assert_eq!(conflicts[0].source_ids(), sources(&[1, 2, 3]).as_slice());
    assert_eq!(conflicts[1].source_ids(), sources(&[5]).as_slice());
    assert_eq!(conflicts[1].group_ids(), groups(&[11]).as_slice());
}

#[test]
fn one_report_per_source_set() {
    let table = groups(&[10, 11]);
    let edges = vec![relation(1, 0, 1, true), relation(2, 1, 0, true)];
    let conflicts = shared_level_set_relation_conflicts(&edges, &table);
    assert_eq!(conflicts.len(), 1);
    assert_eq!(conflicts[0].source_ids(), sources(&[1, 2]).as_slice());
}

#[test]
fn conflicts_need_a_positive_relation_on_a_cycle() {
    let table = groups(&[10, 11, 12]);
    let edges = vec![relation(1, 0, 1, true), relation(2, 1, 2, true), relation(3, 2, 0, false)];
    assert_eq!(shared_level_set_relation_conflicts(&edges, &table).len(), 1);
    let open = vec![relation(1, 0, 1, true), relation(2, 1, 2, true)];
    assert!(shared_level_set_relation_conflicts(&open, &table).is_empty());
    let zero_cycle = vec![relation(1, 0, 1, false), relation(2, 1, 0, false)];
    assert!(shared_level_set_relation_conflicts(&zero_cycle, &table).is_empty());
}
