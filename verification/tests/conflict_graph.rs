use georbf::dyadic::ExactDyadic;
use georbf::graph::{positive_canonical_affine_cycle, shared_level_path, strongly_connected_components, AffineValueEdge};

fn dyadic(value: i64) -> ExactDyadic {
    ExactDyadic::normalized(value < 0, vec![value.unsigned_abs()])
}

fn edge(from: usize, to: usize, difference: i64, separation_source: bool) -> AffineValueEdge {
    AffineValueEdge { from, to, minimum_difference: dyadic(difference), separation_source }
}

fn reverse_of(adjacency: &[Vec<usize>]) -> Vec<Vec<usize>> {
    let mut reverse = vec![Vec::new(); adjacency.len()];
    for (from, targets) in adjacency.iter().enumerate() {
        for &to in targets {
            reverse[to].push(from);
        }
    }
    reverse
}

#[test]
fn components_group_mutually_reachable_nodes() {
    let adjacency = vec![vec![1], vec![2], vec![0, 3], vec![4], vec![3], vec![]];
    let reverse = reverse_of(&adjacency);
    let components = strongly_connected_components(&adjacency, &reverse);
    assert_eq!(components.len(), 6);
    assert_eq!(components[0], components[1]);
    assert_eq!(components[1], components[2]);
    assert_eq!(components[3], components[4]);
    assert_ne!(components[0], components[3]);
    assert_ne!(components[5], components[0]);
    assert_ne!(components[5], components[3]);
    assert!(components.iter().all(|&label| label < 6));
    for (node, sources) in reverse.iter().enumerate() {
        for &source in sources {
            assert!(components[source] <= components[node]);
        }
    }
}

#[test]
fn empty_graph_has_no_components() {
    assert!(strongly_connected_components(&[], &[]).is_empty());
}

#[test]
fn positive_separation_cycle_is_found() {
    let edges = vec![
        edge(0, 1, 2, true),
        edge(1, 2, 3, false),
        edge(2, 0, -4, false),
        edge(2, 3, 1, false),
    ];
    let cycle = positive_canonical_affine_cycle(&edges, 4).expect("the cycle gains one unit");
    assert!(!cycle.is_empty());
    let mut sorted = cycle.clone();
    sorted.sort();
    assert_eq!(sorted, vec![0, 1, 2]);
    for window in cycle.windows(2) {
        assert_eq!(edges[window[0]].from, edges[window[1]].to);
    }
    assert_eq!(edges[*cycle.last().unwrap()].from, edges[cycle[0]].to);
}

#[test]
fn balanced_cycle_is_not_a_conflict() {
    let edges = vec![edge(0, 1, 2, true), edge(1, 2, 3, false), edge(2, 0, -5, false)];
    assert_eq!(positive_canonical_affine_cycle(&edges, 3), None);
}

#[test]
fn positive_cycle_without_a_separation_source_is_ignored() {
    let edges = vec![edge(0, 1, 2, false), edge(1, 0, 2, false), edge(2, 3, 1, true)];
    assert_eq!(positive_canonical_affine_cycle(&edges, 4), None);
}

#[test]
fn acyclic_relations_have_no_conflict() {
    let edges = vec![edge(0, 1, 5, true), edge(1, 2, 5, true)];
    assert_eq!(positive_canonical_affine_cycle(&edges, 3), None);
}

#[test]
fn positive_cycle_meeting_a_separation_cycle_is_found() {
    let edges = vec![
        edge(0, 1, 0, true),
        edge(1, 0, 0, false),
        edge(0, 2, 1, false),
        edge(2, 0, 1, false),
    ];
    let cycle = positive_canonical_affine_cycle(&edges, 3).expect("the walk through node 2 gains two units");
    let mut sorted = cycle.clone();
    sorted.sort();
    assert_eq!(sorted, vec![2, 3]);
    assert_eq!(edges[*cycle.last().unwrap()].from, edges[cycle[0]].to);
}

#[test]
fn components_follow_mutual_reachability_exactly() {
    let adjacency = vec![vec![1], vec![0], vec![0, 3], vec![2], vec![4]];
    let reverse = reverse_of(&adjacency);
    let components = strongly_connected_components(&adjacency, &reverse);
    assert_eq!(components[0], components[1]);
    assert_eq!(components[2], components[3]);
    assert_ne!(components[0], components[2]);
    assert_ne!(components[4], components[0]);
    assert_ne!(components[4], components[2]);
}

#[test]
fn breadth_first_path_takes_the_fewest_edges() {
    // edges: 0: 0->1, 1: 1->2, 2: 2->3, 3: 0->3
    let targets = vec![1, 2, 3, 3];
    let adjacency = vec![vec![0, 3], vec![1], vec![2], vec![]];
    assert_eq!(shared_level_path(&targets, &adjacency, 0, 3), Some(vec![3]));
    assert_eq!(shared_level_path(&targets, &adjacency, 1, 3), Some(vec![1, 2]));
    assert_eq!(shared_level_path(&targets, &adjacency, 3, 0), None);
    assert_eq!(shared_level_path(&targets, &adjacency, 2, 2), Some(vec![]));
}
