//! Contradictory cycles of hard relations between shared level sets.
//!
//! A hard relation says that the field on one shared level set lies at least
//! a required difference above the field on another. A cycle of such
//! relations is contradictory when one of its differences is strictly
//! positive, or when a relation ties a level set to itself. Each proof found
//! is reported once per set of sources, in increasing order of those sets.
use crate::diagnostics::{
    first_record_per_source, has_first_record, is_first_record_at, mentions_source,
    SharedLevelSetConflictSourceEvidence, SharedLevelSetRelationConflictEvidence,
};
use crate::functional::{GroupId, SemanticRolePath, SourceId};
use crate::graph::{shared_level_path, valid_edge_lists, walk_end, walk_valid};
use vstd::prelude::*;

verus! {

/// A hard relation: the field on level set `to` lies at least a required
/// difference above the field on level set `from`. Level sets are indices
/// into the caller's group table.
#[derive(Debug, Clone, Copy, PartialEq, Eq, Structural)]
pub struct SharedLevelEdge {
    pub source_id: SourceId,
    pub from: usize,
    pub to: usize,
    /// Whether the required difference is strictly positive.
    pub positive: bool,
    pub semantic_role: SemanticRolePath,
}

/// Every relation of `edges` joins level sets below `n`.
pub open spec fn edges_below(edges: Seq<SharedLevelEdge>, n: int) -> bool {
    forall|e: int| 0 <= e < edges.len() ==> (#[trigger] edges[e]).from < n && edges[e].to < n
}

/// Following `recs` from `node`, each relation leaves the level set reached
/// so far.
pub open spec fn record_walk(recs: Seq<SharedLevelEdge>, node: usize) -> bool
    decreases recs.len(),
{
    recs.len() == 0 || (recs[0].from == node && record_walk(recs.drop_first(), recs[0].to))
}

/// The level set reached by following `recs` from `node`.
pub open spec fn record_walk_end(recs: Seq<SharedLevelEdge>, node: usize) -> usize
    decreases recs.len(),
{
    if recs.len() == 0 {
        node
    } else {
        record_walk_end(recs.drop_first(), recs[0].to)
    }
}

/// Every relation of `recs` is one of `edges`.
pub open spec fn drawn_from(recs: Seq<SharedLevelEdge>, edges: Seq<SharedLevelEdge>) -> bool {
    forall|k: int| 0 <= k < recs.len() ==> edges.contains(#[trigger] recs[k])
}

/// Some walk over relations of `edges` leads from `start` to `end`.
pub open spec fn reachable_by(edges: Seq<SharedLevelEdge>, start: usize, end: usize) -> bool {
    exists|recs: Seq<SharedLevelEdge>|
        #[trigger] record_walk(recs, start) && record_walk_end(recs, start) == end && drawn_from(
            recs,
            edges,
        )
}

/// `recs` is a cycle of relations of `edges` that no field can satisfy: it
/// closes on the level set its last relation enters, and that relation
/// either requires a strictly positive difference or ties a level set to
/// itself.
pub open spec fn contradictory_cycle(edges: Seq<SharedLevelEdge>, recs: Seq<SharedLevelEdge>) -> bool {
    &&& recs.len() >= 1
    &&& drawn_from(recs, edges)
    &&& record_walk(recs, recs.last().to)
    &&& record_walk_end(recs, recs.last().to) == recs.last().to
    &&& (recs.last().positive || (recs.len() == 1 && recs[0].from == recs[0].to))
}

/// The relations at positions `path` of `edges`.
pub open spec fn records_at(edges: Seq<SharedLevelEdge>, path: Seq<usize>) -> Seq<SharedLevelEdge> {
    path.map_values(|i: usize| edges[i as int])
}

/// The level set each relation of `edges` enters.
pub open spec fn targets_of(edges: Seq<SharedLevelEdge>) -> Seq<usize> {
    edges.map_values(|e: SharedLevelEdge| e.to)
}

/// `adjacency[u]` lists exactly the positions of the relations of `edges`
/// that leave `u`.
pub open spec fn lists_leaving(edges: Seq<SharedLevelEdge>, adjacency: Seq<Vec<usize>>) -> bool {
    forall|u: int, e: usize|
        0 <= u < adjacency.len() ==> (#[trigger] adjacency[u]@.contains(e) <==> (e < edges.len()
            && edges[e as int].from == u))
}

/// A walk over positions is a walk over the relations at those positions.
proof fn lemma_index_walk_is_record_walk(
    edges: Seq<SharedLevelEdge>,
    adjacency: Seq<Vec<usize>>,
    node: usize,
    path: Seq<usize>,
)
    requires
        lists_leaving(edges, adjacency),
        walk_valid(targets_of(edges), adjacency, node, path),
    ensures
        record_walk(records_at(edges, path), node),
        record_walk_end(records_at(edges, path), node) == walk_end(targets_of(edges), node, path),
        forall|k: int| 0 <= k < path.len() ==> #[trigger] path[k] < edges.len(),
    decreases path.len(),
{
    if path.len() > 0 {
        let recs = records_at(edges, path);
        assert(adjacency[node as int]@.contains(path[0]));
        lemma_index_walk_is_record_walk(edges, adjacency, edges[path[0] as int].to, path.drop_first());
        assert(records_at(edges, path.drop_first()) =~= recs.drop_first());
        assert forall|k: int| 0 <= k < path.len() implies #[trigger] path[k] < edges.len() by {
            if k > 0 {
                assert(path[k] == path.drop_first()[k - 1]);
            }
        }
    }
}

/// A walk over relations of `edges` is a walk over some of their positions.
proof fn lemma_record_walk_has_index_walk(
    edges: Seq<SharedLevelEdge>,
    adjacency: Seq<Vec<usize>>,
    node: usize,
    recs: Seq<SharedLevelEdge>,
) -> (path: Seq<usize>)
    requires
        lists_leaving(edges, adjacency),
        node < adjacency.len(),
        edges.len() <= usize::MAX,
        edges_below(edges, adjacency.len() as int),
        record_walk(recs, node),
        drawn_from(recs, edges),
    ensures
        walk_valid(targets_of(edges), adjacency, node, path),
        walk_end(targets_of(edges), node, path) == record_walk_end(recs, node),
        path.len() == recs.len(),
    decreases recs.len(),
{
    if recs.len() == 0 {
        seq![]
    } else {
        assert(edges.contains(recs[0]));
        let j = choose|j: int| 0 <= j < edges.len() && edges[j] == recs[0];
        let i = j as usize;
        assert(i as int == j);
        assert(adjacency[node as int]@.contains(i));
        assert(drawn_from(recs.drop_first(), edges)) by {
            assert forall|k: int| 0 <= k < recs.drop_first().len() implies edges.contains(
                #[trigger] recs.drop_first()[k],
            ) by {
                assert(recs.drop_first()[k] == recs[k + 1]);
            }
        }
        let rest = lemma_record_walk_has_index_walk(edges, adjacency, recs[0].to, recs.drop_first());
        let path = seq![i] + rest;
        assert(path.drop_first() =~= rest);
        assert(path[0] == i);
        assert(targets_of(edges)[j] == recs[0].to);
        path
    }
}

/// `edges` in non-decreasing source order; relations of one source keep
/// their relative order.
fn sort_edges_by_source(edges: &[SharedLevelEdge]) -> (out: Vec<SharedLevelEdge>)
    ensures
        out@.to_multiset() == edges@.to_multiset(),
        forall|i: int, j: int|
            0 <= i < j < out@.len() ==> out@[i].source_id@ <= out@[j].source_id@,
{
    let mut out: Vec<SharedLevelEdge> = Vec::new();
    let mut i: usize = 0;
    proof {
        assert(edges@.take(0) =~= out@);
    }
    while i < edges.len()
        invariant
            i <= edges@.len(),
            forall|a: int, b: int|
                0 <= a < b < out@.len() ==> out@[a].source_id@ <= out@[b].source_id@,
            out@.to_multiset() == edges@.take(i as int).to_multiset(),
        decreases edges.len() - i,
    {
        let x = edges[i];
        let mut j: usize = 0;
        while j < out.len() && out[j].source_id.value() <= x.source_id.value()
            invariant
                j <= out@.len(),
                forall|a: int, b: int|
                    0 <= a < b < out@.len() ==> out@[a].source_id@ <= out@[b].source_id@,
                forall|k: int| 0 <= k < j ==> out@[k].source_id@ <= x.source_id@,
            decreases out.len() - j,
        {
            j = j + 1;
        }
        let ghost before = out@;
        out.insert(j, x);
        proof {
            assert(out@ == before.insert(j as int, x));
            assert forall|a: int, b: int| 0 <= a < b < out@.len() implies out@[a].source_id@
                <= out@[b].source_id@ by {
                if b < j {
                } else if b == j {
                } else if a < j {
                    assert(before[a].source_id@ <= before[b - 1].source_id@);
                } else if a == j {
                    assert(before[j as int].source_id@ <= before[b - 1].source_id@);
                } else {
                    assert(before[a - 1].source_id@ <= before[b - 1].source_id@);
                }
            }
            assert(edges@.take(i as int + 1) =~= edges@.take(i as int).push(x));
            vstd::seq_lib::to_multiset_insert(before, j as int, x);
            vstd::seq_lib::to_multiset_build(edges@.take(i as int), x);
        }
        i = i + 1;
    }
    proof {
        assert(edges@.take(i as int) =~= edges@);
    }
    out
}

/// The level set each relation enters, and for each level set below `n`
/// the positions of the relations that leave it, in increasing order.
fn leaving_lists(edges: &Vec<SharedLevelEdge>, n: usize) -> (lists: (Vec<usize>, Vec<Vec<usize>>))
    requires
        edges_below(edges@, n as int),
    ensures
        lists.0@ == targets_of(edges@),
        lists.1@.len() == n,
        lists_leaving(edges@, lists.1@),
        valid_edge_lists(lists.0@, lists.1@),
{
    let mut adjacency: Vec<Vec<usize>> = Vec::with_capacity(n);
    let mut fill: usize = 0;
    while fill < n
        invariant
            fill <= n,
            adjacency.len() == fill,
            forall|u: int| 0 <= u < fill ==> adjacency[u]@.len() == 0,
        decreases n - fill,
    {
        adjacency.push(Vec::new());
        fill = fill + 1;
    }
    let mut targets: Vec<usize> = Vec::new();
    let mut index: usize = 0;
    while index < edges.len()
        invariant
            index <= edges@.len(),
            edges_below(edges@, n as int),
            adjacency.len() == n,
            targets@ == targets_of(edges@.take(index as int)),
            forall|u: int, e: usize|
                0 <= u < n ==> (#[trigger] adjacency[u]@.contains(e) <==> (e < index
                    && edges@[e as int].from == u)),
        decreases edges.len() - index,
    {
        let from = edges[index].from;
        let mut row = adjacency[from].clone();
        row.push(index);
        let ghost old_adjacency = adjacency@;
        adjacency.set(from, row);
        targets.push(edges[index].to);
        proof {
            assert(targets@ =~= targets_of(edges@.take(index as int + 1)));
            assert forall|u: int, e: usize| 0 <= u < n implies (#[trigger] adjacency[u]@.contains(e)
                <==> (e < index + 1 && edges@[e as int].from == u)) by {
                if u != from as int {
                    assert(adjacency[u] == old_adjacency[u]);
                } else {
                    assert(adjacency[u]@ == old_adjacency[u]@.push(index));
                    if adjacency[u]@.contains(e) {
                        let k = choose|k: int| 0 <= k < adjacency[u]@.len() && adjacency[u]@[k] == e;
                        if k < old_adjacency[u]@.len() {
                            assert(old_adjacency[u]@.contains(e));
                        }
                    }
                    if e < index + 1 && edges@[e as int].from == u {
                        if e < index {
                            assert(old_adjacency[u]@.contains(e));
                            let k = choose|k: int| 0 <= k < old_adjacency[u]@.len() && old_adjacency[u]@[k] == e;
                            assert(adjacency[u]@[k] == e);
                        } else {
                            assert(adjacency[u]@[old_adjacency[u]@.len() as int] == e);
                        }
                    }
                }
            }
        }
        index = index + 1;
    }
    proof {
        assert(edges@.take(index as int) =~= edges@);
        assert forall|u: int, k: int|
            0 <= u < adjacency@.len() && 0 <= k < adjacency@[u]@.len() implies #[trigger] adjacency@[u]@[k]
            < targets@.len() by {
            let e = adjacency@[u]@[k];
            assert(adjacency[u]@.contains(e));
        }
        assert forall|e: int| 0 <= e < targets@.len() implies #[trigger] targets@[e] < adjacency@.len() by {
            assert(targets@ == targets_of(edges@));
            assert(targets@.len() == edges@.len());
            assert(targets@[e] == edges@[e].to);
            assert(edges@[e].to < n);
        }
    }
    (targets, adjacency)
}

/// `record` is the provenance of relation `edge`: its source, its role and
/// exactly the two level sets it joins.
pub open spec fn describes(
    record: SharedLevelSetConflictSourceEvidence,
    edge: SharedLevelEdge,
    groups: Seq<GroupId>,
) -> bool {
    &&& record.source_id_spec() == edge.source_id
    &&& record.semantic_role_spec() == edge.semantic_role
    &&& forall|g: GroupId|
        #[trigger] record.group_ids_spec().contains(g) <==> (g == groups[edge.from as int] || g
            == groups[edge.to as int])
}

/// Some relation of `recs` comes from `source`.
pub open spec fn cycle_mentions(recs: Seq<SharedLevelEdge>, source: SourceId) -> bool {
    exists|k: int| 0 <= k < recs.len() && #[trigger] recs[k].source_id == source
}

/// The relations of `recs` before its last one are no more than those of
/// any walk of `edges` from where the last relation ends back to where it
/// starts.
pub open spec fn fewest_edges(edges: Seq<SharedLevelEdge>, recs: Seq<SharedLevelEdge>) -> bool {
    forall|other: Seq<SharedLevelEdge>|
        #[trigger] record_walk(other, recs.last().to) && record_walk_end(other, recs.last().to) == recs.last().from
            && drawn_from(other, edges) ==> recs.len() - 1 <= other.len()
}

/// `evidence` reports the contradictory cycle `recs` of `edges`: it names
/// exactly the cycle's sources, and each of its records describes one of
/// the cycle's relations.
pub open spec fn reports_cycle(
    evidence: SharedLevelSetRelationConflictEvidence,
    edges: Seq<SharedLevelEdge>,
    groups: Seq<GroupId>,
    recs: Seq<SharedLevelEdge>,
) -> bool {
    &&& contradictory_cycle(edges, recs)
    &&& fewest_edges(edges, recs)
    &&& forall|s: SourceId| #[trigger] evidence.source_ids_spec().contains(s) <==> cycle_mentions(recs, s)
    &&& forall|k: int|
        0 <= k < evidence.source_provenance_spec().len() ==> exists|j: int|
            0 <= j < recs.len() && describes(
                #[trigger] evidence.source_provenance_spec()[k],
                recs[j],
                groups,
            )
}

/// `evidence` reports some contradictory cycle of `edges`.
pub open spec fn reports_some_cycle(
    evidence: SharedLevelSetRelationConflictEvidence,
    edges: Seq<SharedLevelEdge>,
    groups: Seq<GroupId>,
) -> bool {
    exists|recs: Seq<SharedLevelEdge>| #[trigger] reports_cycle(evidence, edges, groups, recs)
}

/// Evidence built from one provenance record per relation of `recs`
/// reports the cycle.
proof fn lemma_evidence_reports_cycle(
    evidence: SharedLevelSetRelationConflictEvidence,
    provenance: Seq<SharedLevelSetConflictSourceEvidence>,
    edges: Seq<SharedLevelEdge>,
    groups: Seq<GroupId>,
    recs: Seq<SharedLevelEdge>,
)
    requires
        contradictory_cycle(edges, recs),
        fewest_edges(edges, recs),
        provenance.len() == recs.len(),
        forall|i: int| 0 <= i < recs.len() ==> describes(#[trigger] provenance[i], recs[i], groups),
        first_record_per_source(provenance, evidence.source_provenance_spec()),
        evidence.source_ids_spec().len() == evidence.source_provenance_spec().len(),
        forall|k: int|
            0 <= k < evidence.source_provenance_spec().len() ==> #[trigger] evidence.source_ids_spec()[k]
                == evidence.source_provenance_spec()[k].source_id_spec(),
    ensures
        reports_cycle(evidence, edges, groups, recs),
{
    let kept = evidence.source_provenance_spec();
    assert forall|s: SourceId| #[trigger] evidence.source_ids_spec().contains(s) implies cycle_mentions(
        recs,
        s,
    ) by {
        let k = choose|k: int| 0 <= k < evidence.source_ids_spec().len() && evidence.source_ids_spec()[k] == s;
        assert(has_first_record(provenance, kept[k]));
        let i = choose|i: int| is_first_record_at(provenance, i, kept[k]);
        assert(recs[i].source_id == s);
    }
    assert forall|s: SourceId| cycle_mentions(recs, s) implies #[trigger] evidence.source_ids_spec().contains(
        s,
    ) by {
        let i = choose|i: int| 0 <= i < recs.len() && #[trigger] recs[i].source_id == s;
        assert(mentions_source(kept, provenance[i].source_id_spec()));
        let k = choose|k: int| 0 <= k < kept.len() && #[trigger] kept[k].source_id_spec() == s;
        assert(evidence.source_ids_spec()[k] == s);
    }
    assert forall|k: int| 0 <= k < kept.len() implies exists|j: int|
        0 <= j < recs.len() && describes(#[trigger] kept[k], recs[j], groups) by {
        assert(has_first_record(provenance, kept[k]));
        let i = choose|i: int| is_first_record_at(provenance, i, kept[k]);
        assert(describes(provenance[i], recs[i], groups));
        assert(describes(kept[k], recs[i], groups));
    }
}

/// A walk followed by one more relation that leaves where it ends.
proof fn lemma_record_walk_push(recs: Seq<SharedLevelEdge>, node: usize, last: SharedLevelEdge)
    requires
        record_walk(recs, node),
        record_walk_end(recs, node) == last.from,
    ensures
        record_walk(recs.push(last), node),
        record_walk_end(recs.push(last), node) == last.to,
    decreases recs.len(),
{
    let longer = recs.push(last);
    if recs.len() > 0 {
        lemma_record_walk_push(recs.drop_first(), recs[0].to, last);
        assert(longer.drop_first() =~= recs.drop_first().push(last));
        assert(longer[0] == recs[0]);
    } else {
        assert(longer.drop_first() =~= seq![]);
        assert(longer[0] == last);
        assert(record_walk(longer.drop_first(), last.to));
        assert(record_walk_end(longer.drop_first(), last.to) == last.to);
    }
}

/// The positions `path` of `sorted` hold a contradictory cycle of `edges`
/// whose last relation is the one at position `e`.
pub open spec fn proves_at(
    sorted: Seq<SharedLevelEdge>,
    edges: Seq<SharedLevelEdge>,
    path: Seq<usize>,
    e: int,
) -> bool {
    &&& forall|k: int| 0 <= k < path.len() ==> #[trigger] path[k] < sorted.len()
    &&& contradictory_cycle(edges, records_at(sorted, path))
    &&& fewest_edges(edges, records_at(sorted, path))
    &&& records_at(sorted, path).last() == sorted[e]
}

/// Whether `a` and `b` hold the same sources in the same order.
fn same_sources(a: &[SourceId], b: &[SourceId]) -> (same: bool)
    ensures
        same == (a@ == b@),
{
    if a.len() != b.len() {
        return false;
    }
    let mut i: usize = 0;
    while i < a.len()
        invariant
            a@.len() == b@.len(),
            i <= a@.len(),
            forall|k: int| 0 <= k < i ==> a@[k] == b@[k],
        decreases a.len() - i,
    {
        if a[i] != b[i] {
            return false;
        }
        i = i + 1;
    }
    assert(a@ =~= b@);
    true
}

/// Provenance records for the relations at `path` of `edges`.
fn provenance_of(edges: &Vec<SharedLevelEdge>, groups: &[GroupId], path: &Vec<usize>) -> (records: Vec<
    SharedLevelSetConflictSourceEvidence,
>)
    requires
        edges_below(edges@, groups@.len() as int),
        forall|k: int| 0 <= k < path@.len() ==> #[trigger] path@[k] < edges@.len(),
    ensures
        records@.len() == path@.len(),
        forall|i: int|
            0 <= i < path@.len() ==> describes(
                #[trigger] records@[i],
                records_at(edges@, path@)[i],
                groups@,
            ),
{
    let mut records: Vec<SharedLevelSetConflictSourceEvidence> = Vec::new();
    let mut k: usize = 0;
    while k < path.len()
        invariant
            edges_below(edges@, groups@.len() as int),
            forall|q: int| 0 <= q < path@.len() ==> #[trigger] path@[q] < edges@.len(),
            k <= path@.len(),
            records@.len() == k,
            forall|i: int|
                0 <= i < k ==> describes(#[trigger] records@[i], records_at(edges@, path@)[i], groups@),
        decreases path.len() - k,
    {
        let edge = edges[path[k]];
        let joined = vec![groups[edge.from], groups[edge.to]];
        proof {
            assert(joined@ =~= seq![groups@[edge.from as int], groups@[edge.to as int]]);
        }
        records.push(SharedLevelSetConflictSourceEvidence::new(edge.source_id, joined, edge.semantic_role));
        k = k + 1;
    }
    records
}

/// `a` precedes `b` in lexicographic order of source identities.
pub open spec fn sources_precede(a: Seq<SourceId>, b: Seq<SourceId>) -> bool
    decreases a.len(),
{
    if a.len() == 0 {
        b.len() > 0
    } else if b.len() == 0 {
        false
    } else if a[0]@ != b[0]@ {
        a[0]@ < b[0]@
    } else {
        sources_precede(a.drop_first(), b.drop_first())
    }
}

/// No sequence precedes itself.
proof fn lemma_precede_irreflexive(a: Seq<SourceId>)
    ensures
        !sources_precede(a, a),
    decreases a.len(),
{
    if a.len() > 0 {
        lemma_precede_irreflexive(a.drop_first());
    }
}

/// Lexicographic precedence is transitive.
proof fn lemma_precede_transitive(a: Seq<SourceId>, b: Seq<SourceId>, c: Seq<SourceId>)
    requires
        sources_precede(a, b),
        sources_precede(b, c),
    ensures
        sources_precede(a, c),
    decreases a.len(),
{
    if a.len() > 0 && b.len() > 0 && c.len() > 0 && a[0]@ == b[0]@ && b[0]@ == c[0]@ {
        lemma_precede_transitive(a.drop_first(), b.drop_first(), c.drop_first());
    }
}

/// Of two different sequences, one precedes the other.
proof fn lemma_precede_total(a: Seq<SourceId>, b: Seq<SourceId>)
    requires
        a != b,
    ensures
        sources_precede(a, b) || sources_precede(b, a),
    decreases a.len(),
{
    if a.len() == 0 {
        assert(b.len() > 0) by {
            if b.len() == 0 {
                assert(a =~= b);
            }
        }
    } else if b.len() > 0 {
        if a[0]@ == b[0]@ {
            SourceId::lemma_view_injective(a[0], b[0]);
            if a.drop_first() == b.drop_first() {
                assert(a =~= seq![a[0]] + a.drop_first());
                assert(b =~= seq![b[0]] + b.drop_first());
            }
            lemma_precede_total(a.drop_first(), b.drop_first());
        }
    }
}

/// Whether `a` precedes `b` in lexicographic order of source identities.
fn sources_before(a: &[SourceId], b: &[SourceId]) -> (before: bool)
    ensures
        before == sources_precede(a@, b@),
{
    let mut i: usize = 0;
    proof {
        assert(a@.skip(0) =~= a@);
        assert(b@.skip(0) =~= b@);
    }
    while i < a.len() && i < b.len() && a[i].value() == b[i].value()
        invariant
            i <= a@.len(),
            i <= b@.len(),
            sources_precede(a@, b@) == sources_precede(a@.skip(i as int), b@.skip(i as int)),
        decreases a.len() - i,
    {
        proof {
            assert(a@.skip(i as int + 1) =~= a@.skip(i as int).drop_first());
            assert(b@.skip(i as int + 1) =~= b@.skip(i as int).drop_first());
            assert(a@.skip(i as int)[0] == a@[i as int]);
            assert(b@.skip(i as int)[0] == b@[i as int]);
        }
        i = i + 1;
    }
    if i == a.len() {
        i < b.len()
    } else if i == b.len() {
        false
    } else {
        proof {
            assert(a@.skip(i as int)[0] == a@[i as int]);
            assert(b@.skip(i as int)[0] == b@[i as int]);
        }
        a[i].value() < b[i].value()
    }
}

/// `conflicts` in strictly increasing lexicographic order of their sources.
fn sort_conflicts(conflicts: Vec<SharedLevelSetRelationConflictEvidence>) -> (sorted: Vec<
    SharedLevelSetRelationConflictEvidence,
>)
    requires
        forall|a: int, b: int|
            0 <= a < b < conflicts@.len() ==> conflicts@[a].source_ids_spec()
                != conflicts@[b].source_ids_spec(),
    ensures
        sorted@.to_multiset() == conflicts@.to_multiset(),
        forall|a: int, b: int|
            0 <= a < b < sorted@.len() ==> sources_precede(
                sorted@[a].source_ids_spec(),
                sorted@[b].source_ids_spec(),
            ),
{
    broadcast use vstd::seq_lib::group_to_multiset_ensures;

    let ghost original = conflicts@;
    let mut rest = conflicts;
    let mut out: Vec<SharedLevelSetRelationConflictEvidence> = Vec::new();
    proof {
        assert(original.skip(original.len() as int) =~= out@);
        assert(original.take(original.len() as int) =~= rest@);
    }
    while rest.len() > 0
        invariant
            rest@.len() <= original.len(),
            rest@ == original.take(rest@.len() as int),
            out@.to_multiset() == original.skip(rest@.len() as int).to_multiset(),
            forall|a: int, b: int|
                0 <= a < b < original.len() ==> original[a].source_ids_spec()
                    != original[b].source_ids_spec(),
            forall|a: int, b: int|
                0 <= a < b < out@.len() ==> sources_precede(
                    out@[a].source_ids_spec(),
                    out@[b].source_ids_spec(),
                ),
        decreases rest.len(),
    {
        let ghost remaining = rest@.len() - 1;
        let x = match rest.pop() {
            Some(x) => x,
            None => {
                return out;
            },
        };
        proof {
            assert(x == original[remaining]);
            assert(rest@ =~= original.take(remaining));
            assert forall|k: int| 0 <= k < out@.len() implies out@[k].source_ids_spec()
                != x.source_ids_spec() by {
                assert(out@.contains(out@[k]));
                vstd::seq_lib::to_multiset_contains(out@, out@[k]);
                vstd::seq_lib::to_multiset_contains(original.skip(remaining + 1), out@[k]);
                assert(original.skip(remaining + 1).contains(out@[k]));
                let tail = original.skip(remaining + 1);
                let m = choose|m: int| 0 <= m < tail.len() && #[trigger] tail[m] == out@[k];
                assert(original[remaining + 1 + m] == out@[k]);
            }
        }
        let mut j: usize = 0;
        while j < out.len() && sources_before(out[j].source_ids(), x.source_ids())
            invariant
                j <= out@.len(),
                forall|k: int| 0 <= k < j ==> sources_precede(out@[k].source_ids_spec(), x.source_ids_spec()),
            decreases out.len() - j,
        {
            j = j + 1;
        }
        let ghost before = out@;
        proof {
            if j < before.len() {
                lemma_precede_total(before[j as int].source_ids_spec(), x.source_ids_spec());
            }
        }
        out.insert(j, x);
        proof {
            assert(out@ == before.insert(j as int, x));
            assert forall|a: int, b: int| 0 <= a < b < out@.len() implies sources_precede(
                out@[a].source_ids_spec(),
                out@[b].source_ids_spec(),
            ) by {
                if b < j {
                } else if b == j {
                } else if a < j {
                    assert(sources_precede(before[a].source_ids_spec(), before[b - 1].source_ids_spec()));
                } else if a == j {
                    if b - 1 > j {
                        lemma_precede_transitive(
                            x.source_ids_spec(),
                            before[j as int].source_ids_spec(),
                            before[b - 1].source_ids_spec(),
                        );
                    }
                } else {
                    assert(sources_precede(before[a - 1].source_ids_spec(), before[b - 1].source_ids_spec()));
                }
            }
            assert(original.skip(remaining) =~= original.skip(remaining + 1).insert(0, x));
            vstd::seq_lib::to_multiset_insert(before, j as int, x);
            vstd::seq_lib::to_multiset_insert(original.skip(remaining + 1), 0, x);
        }
    }
    proof {
        assert(original.skip(0) =~= original);
    }
    out
}

/// `evidence` names exactly the sources of the relations of `recs`.
pub open spec fn reports_sources_of(
    evidence: SharedLevelSetRelationConflictEvidence,
    recs: Seq<SharedLevelEdge>,
) -> bool {
    forall|s: SourceId| #[trigger] evidence.source_ids_spec().contains(s) <==> cycle_mentions(recs, s)
}

/// Some report of `conflicts` names exactly the sources of a contradictory
/// cycle that relation `r` closes with the fewest relations.
pub open spec fn own_cycle_reported(
    conflicts: Seq<SharedLevelSetRelationConflictEvidence>,
    edges: Seq<SharedLevelEdge>,
    r: SharedLevelEdge,
) -> bool {
    exists|k: int, recs: Seq<SharedLevelEdge>|
        0 <= k < conflicts.len() && contradictory_cycle(edges, recs) && fewest_edges(edges, recs) && recs.last()
            == r && #[trigger] reports_sources_of(conflicts[k], recs)
}

/// Every contradictory cycle of hard relations among `edges`, reported once
/// per set of sources. A relation that ties a level set to itself is a
/// cycle on its own; a relation with a strictly positive difference from
/// `u` to `v` closes a cycle with a breadth-first path from `v` back to
/// `u`, one with the fewest relations. Each relation that can close such a
/// cycle has its source in some report.
pub fn shared_level_set_relation_conflicts(edges: &[SharedLevelEdge], groups: &[GroupId]) -> (conflicts:
    Vec<SharedLevelSetRelationConflictEvidence>)
    requires
        edges_below(edges@, groups@.len() as int),
    ensures
        forall|k: int|
            0 <= k < conflicts@.len() ==> reports_some_cycle(#[trigger] conflicts@[k], edges@, groups@),
        forall|a: int, b: int|
            0 <= a < b < conflicts@.len() ==> sources_precede(
                conflicts@[a].source_ids_spec(),
                conflicts@[b].source_ids_spec(),
            ),
        forall|a: int, b: int|
            0 <= a < b < conflicts@.len() ==> conflicts@[a].source_ids_spec()
                != conflicts@[b].source_ids_spec(),
        forall|i: int|
            0 <= i < edges@.len() && ((#[trigger] edges@[i]).from == edges@[i].to || (edges@[i].positive
                && reachable_by(edges@, edges@[i].to, edges@[i].from))) ==> exists|k: int|
                0 <= k < conflicts@.len() && conflicts@[k].source_ids_spec().contains(
                    edges@[i].source_id,
                ),
        forall|i: int|
            0 <= i < edges@.len() && ((#[trigger] edges@[i]).from == edges@[i].to || (edges@[i].positive
                && reachable_by(edges@, edges@[i].to, edges@[i].from))) ==> own_cycle_reported(
                conflicts@,
                edges@,
                edges@[i],
            ),
{
    let sorted = sort_edges_by_source(edges);
    proof {
        broadcast use vstd::seq_lib::group_to_multiset_ensures;

        assert forall|r: SharedLevelEdge| sorted@.contains(r) <==> edges@.contains(r) by {
            assert(sorted@.to_multiset().count(r) == edges@.to_multiset().count(r));
        }
        assert forall|e: int| 0 <= e < sorted@.len() implies (#[trigger] sorted@[e]).from < groups@.len()
            && sorted@[e].to < groups@.len() by {
            assert(sorted@.contains(sorted@[e]));
            assert(edges@.contains(sorted@[e]));
        }
    }
    let (targets, adjacency) = leaving_lists(&sorted, groups.len());
    let mut conflicts: Vec<SharedLevelSetRelationConflictEvidence> = Vec::new();
    let ghost mut witnesses: Seq<Seq<SharedLevelEdge>> = seq![];
    let mut e: usize = 0;
    while e < sorted.len()
        invariant
            e <= sorted@.len(),
            edges_below(sorted@, groups@.len() as int),
            edges_below(edges@, groups@.len() as int),
            forall|r: SharedLevelEdge| sorted@.contains(r) <==> edges@.contains(r),
            targets@ == targets_of(sorted@),
            adjacency@.len() == groups@.len(),
            lists_leaving(sorted@, adjacency@),
            valid_edge_lists(targets@, adjacency@),
            witnesses.len() == conflicts@.len(),
            forall|k: int|
                0 <= k < conflicts@.len() ==> reports_cycle(
                    #[trigger] conflicts@[k],
                    edges@,
                    groups@,
                    witnesses[k],
                ),
            forall|a: int, b: int|
                0 <= a < b < conflicts@.len() ==> conflicts@[a].source_ids_spec()
                    != conflicts@[b].source_ids_spec(),
            forall|d: int|
                0 <= d < e && ((#[trigger] sorted@[d]).from == sorted@[d].to || (sorted@[d].positive
                    && reachable_by(edges@, sorted@[d].to, sorted@[d].from))) ==> exists|k: int|
                    0 <= k < conflicts@.len() && conflicts@[k].source_ids_spec().contains(
                        sorted@[d].source_id,
                    ),
            forall|d: int|
                0 <= d < e && ((#[trigger] sorted@[d]).from == sorted@[d].to || (sorted@[d].positive
                    && reachable_by(edges@, sorted@[d].to, sorted@[d].from))) ==> own_cycle_reported(
                    conflicts@,
                    edges@,
                    sorted@[d],
                ),
        decreases sorted.len() - e,
    {
        let edge = sorted[e];
        let ghost conflicts_before = conflicts@;
        let mut proof_path: Option<Vec<usize>> = None;
        if edge.from == edge.to {
            let single = vec![e];
            proof {
                let recs = records_at(sorted@, single@);
                assert(recs =~= seq![edge]);
                assert(recs.drop_first() =~= seq![]);
                assert(sorted@.contains(edge));
                assert(edges@.contains(edge));
                assert(drawn_from(recs, edges@)) by {
                    assert forall|k: int| 0 <= k < recs.len() implies edges@.contains(#[trigger] recs[k]) by {
                        assert(recs[k] == edge);
                    }
                }
                assert(record_walk(recs.drop_first(), edge.to));
                assert(record_walk_end(recs.drop_first(), edge.to) == edge.to);
                assert(recs[0] == edge);
                assert(recs.last() == edge);
                assert(record_walk(recs, edge.to));
                assert(record_walk_end(recs, edge.to) == edge.to);
                assert(contradictory_cycle(edges@, recs));
                assert(proves_at(sorted@, edges@, single@, e as int));
            }
            proof_path = Some(single);
        } else if edge.positive {
            match shared_level_path(targets.as_slice(), adjacency.as_slice(), edge.to, edge.from) {
                Some(path) => {
                    let mut p = path;
                    let ghost before = p@;
                    proof {
                        lemma_index_walk_is_record_walk(sorted@, adjacency@, edge.to, before);
                        lemma_record_walk_push(records_at(sorted@, before), edge.to, edge);
                    }
                    p.push(e);
                    proof {
                        let recs = records_at(sorted@, p@);
                        assert(recs =~= records_at(sorted@, before).push(edge));
                        assert forall|k: int| 0 <= k < p@.len() implies #[trigger] p@[k] < sorted@.len() by {
                            if k < before.len() {
                                assert(p@[k] == before[k]);
                            }
                        }
                        assert forall|k: int| 0 <= k < recs.len() implies edges@.contains(
                            #[trigger] recs[k],
                        ) by {
                            assert(recs[k] == sorted@[p@[k] as int]);
                            assert(sorted@.contains(recs[k]));
                        }
                        assert(contradictory_cycle(edges@, recs));
                        assert(recs.last() == edge);
                        assert forall|other: Seq<SharedLevelEdge>|
                            #[trigger] record_walk(other, recs.last().to) && record_walk_end(other, recs.last().to)
                                == recs.last().from && drawn_from(other, edges@) implies recs.len() - 1 <= other.len() by {
                            assert(drawn_from(other, sorted@)) by {
                                assert forall|k: int| 0 <= k < other.len() implies sorted@.contains(
                                    #[trigger] other[k],
                                ) by {
                                    assert(edges@.contains(other[k]));
                                }
                            }
                            let q = lemma_record_walk_has_index_walk(sorted@, adjacency@, edge.to, other);
                            assert(walk_valid(targets@, adjacency@, edge.to, q));
                            assert(walk_end(targets@, edge.to, q) == edge.from);
                            assert(before.len() <= q.len());
                        }
                        assert(fewest_edges(edges@, recs));
                        assert(proves_at(sorted@, edges@, p@, e as int));
                    }
                    proof_path = Some(p);
                },
                None => {
                    proof {
                        if reachable_by(edges@, edge.to, edge.from) {
                            let recs = choose|recs: Seq<SharedLevelEdge>|
                                #[trigger] record_walk(recs, edge.to) && record_walk_end(recs, edge.to)
                                    == edge.from && drawn_from(recs, edges@);
                            assert(drawn_from(recs, sorted@)) by {
                                assert forall|k: int| 0 <= k < recs.len() implies sorted@.contains(
                                    #[trigger] recs[k],
                                ) by {
                                    assert(edges@.contains(recs[k]));
                                }
                            }
                            let q = lemma_record_walk_has_index_walk(sorted@, adjacency@, edge.to, recs);
                            assert(walk_valid(targets@, adjacency@, edge.to, q));
                            assert(false);
                        }
                    }
                },
            }
        }
        proof {
            assert(proof_path matches Some(p) ==> proves_at(sorted@, edges@, p@, e as int));
            assert(edge.from == edge.to || (edge.positive && reachable_by(
                edges@,
                edge.to,
                edge.from,
            )) ==> proof_path is Some);
        }
        match proof_path {
            Some(path) => {
                let ghost recs = records_at(sorted@, path@);
                proof {
                    assert(proves_at(sorted@, edges@, path@, e as int));
                    assert(recs.last() == edge);
                }
                let provenance = provenance_of(&sorted, groups, &path);
                let evidence = SharedLevelSetRelationConflictEvidence::new(provenance);
                proof {
                    lemma_evidence_reports_cycle(evidence, provenance@, edges@, groups@, recs);
                    assert(cycle_mentions(recs, edge.source_id)) by {
                        assert(recs[recs.len() - 1].source_id == edge.source_id);
                    }
                }
                let mut found = false;
                let mut k: usize = 0;
                while k < conflicts.len()
                    invariant
                        k <= conflicts@.len(),
                        found ==> exists|q: int|
                            0 <= q < conflicts@.len() && conflicts@[q].source_ids_spec()
                                == evidence.source_ids_spec(),
                        !found ==> forall|q: int|
                            0 <= q < k ==> conflicts@[q].source_ids_spec()
                                != evidence.source_ids_spec(),
                    decreases conflicts.len() - k,
                {
                    if same_sources(conflicts[k].source_ids(), evidence.source_ids()) {
                        found = true;
                    }
                    k = k + 1;
                }
                if !found {
                    conflicts.push(evidence);
                    proof {
                        witnesses = witnesses.push(recs);
                        assert(conflicts@[conflicts@.len() - 1] == evidence);
                    }
                }
                proof {
                    assert(reports_sources_of(evidence, recs));
                    let q = if found {
                        choose|q: int|
                            0 <= q < conflicts@.len() && conflicts@[q].source_ids_spec()
                                == evidence.source_ids_spec()
                    } else {
                        conflicts@.len() - 1
                    };
                    assert(conflicts@[q].source_ids_spec() == evidence.source_ids_spec());
                    assert(reports_sources_of(conflicts@[q], recs));
                    assert(proves_at(sorted@, edges@, path@, e as int));
                    assert(own_cycle_reported(conflicts@, edges@, edge));
                }
                proof {
                    assert(forall|q: int| 0 <= q < conflicts_before.len() ==> conflicts@[q] == conflicts_before[q]);
                    assert(evidence.source_ids_spec().contains(edge.source_id));
                    assert(exists|q: int|
                        0 <= q < conflicts@.len() && conflicts@[q].source_ids_spec().contains(
                            edge.source_id,
                        ));
                }
            },
            None => {},
        }
        proof {
            assert(forall|q: int| 0 <= q < conflicts_before.len() ==> conflicts@[q] == conflicts_before[q]);
            assert forall|d: int|
                0 <= d < e + 1 && ((#[trigger] sorted@[d]).from == sorted@[d].to || (sorted@[d].positive
                    && reachable_by(edges@, sorted@[d].to, sorted@[d].from))) implies exists|k: int|
                    0 <= k < conflicts@.len() && conflicts@[k].source_ids_spec().contains(
                        sorted@[d].source_id,
                    ) by {
                if d < e {
                    let k = choose|k: int|
                        0 <= k < conflicts_before.len() && conflicts_before[k].source_ids_spec().contains(
                            sorted@[d].source_id,
                        );
                    assert(conflicts@[k] == conflicts_before[k]);
                }
            }
            assert forall|d: int|
                0 <= d < e + 1 && ((#[trigger] sorted@[d]).from == sorted@[d].to || (sorted@[d].positive
                    && reachable_by(edges@, sorted@[d].to, sorted@[d].from))) implies own_cycle_reported(
                    conflicts@,
                    edges@,
                    sorted@[d],
                ) by {
                if d < e {
                    let (k, recs) = choose|k: int, recs: Seq<SharedLevelEdge>|
                        0 <= k < conflicts_before.len() && contradictory_cycle(edges@, recs) && fewest_edges(edges@, recs)
                            && recs.last() == sorted@[d] && #[trigger] reports_sources_of(conflicts_before[k], recs);
                    assert(conflicts@[k] == conflicts_before[k]);
                    assert(reports_sources_of(conflicts@[k], recs));
                }
            }
        }
        e = e + 1;
    }
    proof {
        assert forall|k: int| 0 <= k < conflicts@.len() implies reports_some_cycle(
            #[trigger] conflicts@[k],
            edges@,
            groups@,
        ) by {
            assert(reports_cycle(conflicts@[k], edges@, groups@, witnesses[k]));
        }
        assert forall|i: int|
            0 <= i < edges@.len() && ((#[trigger] edges@[i]).from == edges@[i].to || (edges@[i].positive
                && reachable_by(edges@, edges@[i].to, edges@[i].from))) implies exists|k: int|
                0 <= k < conflicts@.len() && conflicts@[k].source_ids_spec().contains(
                    edges@[i].source_id,
                ) by {
            assert(edges@.contains(edges@[i]));
            assert(sorted@.contains(edges@[i]));
            let d = choose|d: int| 0 <= d < sorted@.len() && sorted@[d] == edges@[i];
            assert(sorted@[d] == edges@[i]);
        }
        assert forall|i: int|
            0 <= i < edges@.len() && ((#[trigger] edges@[i]).from == edges@[i].to || (edges@[i].positive
                && reachable_by(edges@, edges@[i].to, edges@[i].from))) implies own_cycle_reported(
                conflicts@,
                edges@,
                edges@[i],
            ) by {
            assert(edges@.contains(edges@[i]));
            assert(sorted@.contains(edges@[i]));
            let d = choose|d: int| 0 <= d < sorted@.len() && sorted@[d] == edges@[i];
            assert(sorted@[d] == edges@[i]);
        }
    }
    let ghost found = conflicts@;
    let ordered = sort_conflicts(conflicts);
    proof {
        assert forall|k: int| 0 <= k < ordered@.len() implies reports_some_cycle(
            #[trigger] ordered@[k],
            edges@,
            groups@,
        ) by {
            assert(ordered@.contains(ordered@[k]));
            vstd::seq_lib::to_multiset_contains(ordered@, ordered@[k]);
            vstd::seq_lib::to_multiset_contains(found, ordered@[k]);
            let m = choose|m: int| 0 <= m < found.len() && #[trigger] found[m] == ordered@[k];
            assert(reports_some_cycle(found[m], edges@, groups@));
        }
        assert forall|a: int, b: int| 0 <= a < b < ordered@.len() implies ordered@[a].source_ids_spec()
            != ordered@[b].source_ids_spec() by {
            lemma_precede_irreflexive(ordered@[a].source_ids_spec());
        }
        assert forall|i: int|
            0 <= i < edges@.len() && ((#[trigger] edges@[i]).from == edges@[i].to || (edges@[i].positive
                && reachable_by(edges@, edges@[i].to, edges@[i].from))) implies exists|k: int|
                0 <= k < ordered@.len() && ordered@[k].source_ids_spec().contains(
                    edges@[i].source_id,
                ) by {
            let m = choose|m: int|
                0 <= m < found.len() && found[m].source_ids_spec().contains(edges@[i].source_id);
            assert(found.contains(found[m]));
            vstd::seq_lib::to_multiset_contains(found, found[m]);
            vstd::seq_lib::to_multiset_contains(ordered@, found[m]);
            let k = choose|k: int| 0 <= k < ordered@.len() && #[trigger] ordered@[k] == found[m];
            assert(ordered@[k].source_ids_spec().contains(edges@[i].source_id));
        }
        assert forall|i: int|
            0 <= i < edges@.len() && ((#[trigger] edges@[i]).from == edges@[i].to || (edges@[i].positive
                && reachable_by(edges@, edges@[i].to, edges@[i].from))) implies own_cycle_reported(
                ordered@,
                edges@,
                edges@[i],
            ) by {
            let (m, recs) = choose|m: int, recs: Seq<SharedLevelEdge>|
                0 <= m < found.len() && contradictory_cycle(edges@, recs) && fewest_edges(edges@, recs)
                    && recs.last() == edges@[i] && #[trigger] reports_sources_of(found[m], recs);
            assert(found.contains(found[m]));
            vstd::seq_lib::to_multiset_contains(found, found[m]);
            vstd::seq_lib::to_multiset_contains(ordered@, found[m]);
            let k = choose|k: int| 0 <= k < ordered@.len() && #[trigger] ordered@[k] == found[m];
            assert(reports_sources_of(ordered@[k], recs));
        }
    }
    ordered
}

} // verus!
