//! Structural preflight over a problem inventory: which shared level sets
//! other inputs reference, which axial normals lack a polarity resolution,
//! whether anything pins the field's additive constant, and the
//! conservative counts a report records before lowering.
use crate::inventory::{
    BoundEntry, CovarianceGroupEntry, CovarianceMemberEntry, GaugeReference, LevelRelationEntry,
    NormalEntry, ObservationEntry, ObservationKind, PointRelationEntry, PolarityEntry,
    ProblemInventory, SeparationEntry, SharedLevelSetEntry, SourceName,
};
use crate::diagnostics::{
    UnidentifiedAdditiveGaugeEvidence, UninformativeSharedLevelSetEvidence,
    UnresolvedAxialNormalEvidence,
};
use crate::fit::{conservative_problem_size, ProblemSize, ScalarRelationCounts};
use crate::functional::{GroupId, SourceId};
use crate::inventory::{
    bounded, hard_relations, identifier_bytes, linear_terms, quadratic_terms, soft_relations,
};
use vstd::prelude::*;

verus! {

/// Whether gauge `i` of `inv` pins the level set `group`.
pub open spec fn gauge_references(inv: ProblemInventory, i: int, group: GroupId) -> bool {
    inv.additive_field_gauges@[i].reference matches GaugeReference::LevelSet(g) && g.id == group
}

/// Whether some input of `inv` other than the level set's own members
/// refers to the shared level set `group`: a level-set gauge, a relation
/// between level sets, a field-separation interval or a point relation.
pub open spec fn references_group_spec(inv: ProblemInventory, group: GroupId) -> bool {
    ||| exists|i: int| 0 <= i < inv.additive_field_gauges@.len() && #[trigger] gauge_references(inv, i, group)
    ||| exists|i: int, j: int|
        0 <= i < inv.shared_level_set_relations@.len() && 0 <= j
            < inv.shared_level_set_relations@[i].groups@.len()
            && #[trigger] inv.shared_level_set_relations@[i].groups@[j].id == group
    ||| exists|i: int|
        0 <= i < inv.field_separation_intervals@.len() && (
        #[trigger] inv.field_separation_intervals@[i].reference_group.id == group
            || inv.field_separation_intervals@[i].target_group.id == group)
    ||| exists|i: int|
        0 <= i < inv.point_to_level_set_relations@.len()
            && #[trigger] inv.point_to_level_set_relations@[i].group.id == group
}

/// Whether some input of `inv` other than its members refers to `group`.
pub fn references_group(inv: &ProblemInventory, group: GroupId) -> (referenced: bool)
    ensures
        referenced == references_group_spec(*inv, group),
        forall|i: int|
            0 <= i < inv.point_to_level_set_relations@.len() && #[trigger] inv.point_to_level_set_relations@[i].group.id
                == group ==> referenced,
        forall|i: int|
            0 <= i < inv.field_separation_intervals@.len() && (
            #[trigger] inv.field_separation_intervals@[i].reference_group.id == group
                || inv.field_separation_intervals@[i].target_group.id == group) ==> referenced,
        forall|i: int, j: int|
            0 <= i < inv.shared_level_set_relations@.len() && 0 <= j
                < inv.shared_level_set_relations@[i].groups@.len()
                && #[trigger] inv.shared_level_set_relations@[i].groups@[j].id == group ==> referenced,
        forall|i: int|
            0 <= i < inv.additive_field_gauges@.len() && #[trigger] gauge_references(*inv, i, group)
                ==> referenced,
        referenced ==> (exists|i: int|
            0 <= i < inv.point_to_level_set_relations@.len() && #[trigger] inv.point_to_level_set_relations@[i].group.id
                == group) || (exists|i: int|
            0 <= i < inv.field_separation_intervals@.len() && (
            #[trigger] inv.field_separation_intervals@[i].reference_group.id == group
                || inv.field_separation_intervals@[i].target_group.id == group)) || (exists|i: int, j: int|
            0 <= i < inv.shared_level_set_relations@.len() && 0 <= j
                < inv.shared_level_set_relations@[i].groups@.len()
                && #[trigger] inv.shared_level_set_relations@[i].groups@[j].id == group) || (exists|i: int|
            0 <= i < inv.additive_field_gauges@.len() && #[trigger] gauge_references(*inv, i, group)),
{
    let mut i: usize = 0;
    while i < inv.additive_field_gauges.len()
        invariant
            i <= inv.additive_field_gauges@.len(),
            forall|k: int| 0 <= k < i ==> !gauge_references(*inv, k, group),
        decreases inv.additive_field_gauges.len() - i,
    {
        match inv.additive_field_gauges[i].reference {
            GaugeReference::LevelSet(g) => {
                if g.id == group {
                    assert(gauge_references(*inv, i as int, group));
                    return true;
                }
            },
            GaugeReference::Point => {},
        }
        i = i + 1;
    }
    let mut r: usize = 0;
    while r < inv.shared_level_set_relations.len()
        invariant
            r <= inv.shared_level_set_relations@.len(),
            forall|k: int, j: int|
                0 <= k < r && 0 <= j < inv.shared_level_set_relations@[k].groups@.len()
                    ==> inv.shared_level_set_relations@[k].groups@[j].id != group,
        decreases inv.shared_level_set_relations.len() - r,
    {
        let groups = &inv.shared_level_set_relations[r].groups;
        let mut j: usize = 0;
        while j < groups.len()
            invariant
                r < inv.shared_level_set_relations@.len(),
                *groups == inv.shared_level_set_relations@[r as int].groups,
                j <= groups@.len(),
                forall|q: int| 0 <= q < j ==> groups@[q].id != group,
            decreases groups.len() - j,
        {
            if groups[j].id == group {
                assert(inv.shared_level_set_relations@[r as int].groups@[j as int].id == group);
                return true;
            }
            j = j + 1;
        }
        r = r + 1;
    }
    let mut s: usize = 0;
    while s < inv.field_separation_intervals.len()
        invariant
            s <= inv.field_separation_intervals@.len(),
            forall|k: int|
                0 <= k < s ==> inv.field_separation_intervals@[k].reference_group.id != group
                    && inv.field_separation_intervals@[k].target_group.id != group,
        decreases inv.field_separation_intervals.len() - s,
    {
        let interval = &inv.field_separation_intervals[s];
        if interval.reference_group.id == group || interval.target_group.id == group {
            assert(inv.field_separation_intervals@[s as int].reference_group.id == group
                || inv.field_separation_intervals@[s as int].target_group.id == group);
            return true;
        }
        s = s + 1;
    }
    let mut p: usize = 0;
    while p < inv.point_to_level_set_relations.len()
        invariant
            p <= inv.point_to_level_set_relations@.len(),
            forall|k: int|
                0 <= k < p ==> inv.point_to_level_set_relations@[k].group.id != group,
        decreases inv.point_to_level_set_relations.len() - p,
    {
        if inv.point_to_level_set_relations[p].group.id == group {
            assert(inv.point_to_level_set_relations@[p as int].group.id == group);
            return true;
        }
        p = p + 1;
    }
    false
}

/// Whether some input of `inv` fixes the field's additive constant: a
/// field-value observation, a field-value member of a covariance group, an
/// additive gauge or a field-value bound.
pub open spec fn has_absolute_reference_spec(inv: ProblemInventory) -> bool {
    ||| exists|i: int|
        0 <= i < inv.observations@.len() && #[trigger] inv.observations@[i].kind
            == ObservationKind::FieldValue
    ||| exists|i: int, j: int|
        0 <= i < inv.covariance_groups@.len() && 0 <= j < inv.covariance_groups@[i].members@.len()
            && #[trigger] inv.covariance_groups@[i].members@[j].field_value
    ||| inv.additive_field_gauges@.len() > 0
    ||| inv.field_value_bounds@.len() > 0
}

/// Whether some input of `inv` fixes the field's additive constant.
pub fn has_absolute_reference(inv: &ProblemInventory) -> (pinned: bool)
    ensures
        pinned == has_absolute_reference_spec(*inv),
        inv.field_value_bounds@.len() > 0 ==> pinned,
        inv.additive_field_gauges@.len() > 0 ==> pinned,
        forall|i: int|
            0 <= i < inv.observations@.len() && #[trigger] inv.observations@[i].kind == ObservationKind::FieldValue
                ==> pinned,
        forall|i: int, j: int|
            0 <= i < inv.covariance_groups@.len() && 0 <= j < inv.covariance_groups@[i].members@.len()
                && #[trigger] inv.covariance_groups@[i].members@[j].field_value ==> pinned,
        pinned ==> inv.field_value_bounds@.len() > 0 || inv.additive_field_gauges@.len() > 0 || (exists|i: int|
            0 <= i < inv.observations@.len() && #[trigger] inv.observations@[i].kind == ObservationKind::FieldValue)
            || (exists|i: int, j: int|
            0 <= i < inv.covariance_groups@.len() && 0 <= j < inv.covariance_groups@[i].members@.len()
                && #[trigger] inv.covariance_groups@[i].members@[j].field_value),
{
    if inv.additive_field_gauges.len() > 0 || inv.field_value_bounds.len() > 0 {
        return true;
    }
    let mut i: usize = 0;
    while i < inv.observations.len()
        invariant
            i <= inv.observations@.len(),
            forall|k: int| 0 <= k < i ==> inv.observations@[k].kind != ObservationKind::FieldValue,
        decreases inv.observations.len() - i,
    {
        match inv.observations[i].kind {
            ObservationKind::FieldValue => {
                assert(inv.observations@[i as int].kind == ObservationKind::FieldValue);
                return true;
            },
            _ => {},
        }
        i = i + 1;
    }
    let mut g: usize = 0;
    while g < inv.covariance_groups.len()
        invariant
            g <= inv.covariance_groups@.len(),
            forall|k: int, j: int|
                0 <= k < g && 0 <= j < inv.covariance_groups@[k].members@.len()
                    ==> !inv.covariance_groups@[k].members@[j].field_value,
        decreases inv.covariance_groups.len() - g,
    {
        let members = &inv.covariance_groups[g].members;
        let mut j: usize = 0;
        while j < members.len()
            invariant
                g < inv.covariance_groups@.len(),
                *members == inv.covariance_groups@[g as int].members,
                j <= members@.len(),
                forall|q: int| 0 <= q < j ==> !members@[q].field_value,
            decreases members.len() - j,
        {
            if members[j].field_value {
                assert(inv.covariance_groups@[g as int].members@[j as int].field_value);
                return true;
            }
            j = j + 1;
        }
        g = g + 1;
    }
    false
}

/// The inputs of `inv` a report counts as observations: point observations,
/// normals, polarity resolutions, bounds, intervals and relations.
pub open spec fn input_observations_spec(inv: ProblemInventory) -> nat {
    inv.observations@.len() + inv.directed_normals@.len() + inv.axial_normals@.len()
        + inv.polarity_resolutions@.len() + inv.field_value_bounds@.len()
        + inv.directional_derivative_intervals@.len() + inv.field_separation_intervals@.len()
        + inv.point_to_level_set_relations@.len() + inv.shared_level_set_relations@.len()
}

/// `a + b`, or `usize::MAX` when the sum does not fit.
fn saturating_sum(a: usize, b: usize) -> (r: usize)
    ensures
        r == if a + b <= usize::MAX { (a + b) as usize } else { usize::MAX },
{
    match a.checked_add(b) {
        Some(s) => s,
        None => usize::MAX,
    }
}

/// The observation count of `inv`, saturated at `usize::MAX`.
pub fn input_observation_count(inv: &ProblemInventory) -> (count: usize)
    ensures
        count == if input_observations_spec(*inv) <= usize::MAX {
            input_observations_spec(*inv) as usize
        } else {
            usize::MAX
        },
{
    let c = saturating_sum(inv.observations.len(), inv.directed_normals.len());
    let c = saturating_sum(c, inv.axial_normals.len());
    let c = saturating_sum(c, inv.polarity_resolutions.len());
    let c = saturating_sum(c, inv.field_value_bounds.len());
    let c = saturating_sum(c, inv.directional_derivative_intervals.len());
    let c = saturating_sum(c, inv.field_separation_intervals.len());
    let c = saturating_sum(c, inv.point_to_level_set_relations.len());
    let c = saturating_sum(c, inv.shared_level_set_relations.len());
    c
}

/// Whether some resolution in `resolutions` fixes the polarity of the axial
/// normal declared by `source`.
pub open spec fn is_resolved(resolutions: Seq<PolarityEntry>, source: SourceId) -> bool {
    exists|i: int| 0 <= i < resolutions.len() && #[trigger] resolutions[i].axial_source.id == source
}

/// The axial normals among `normals` that no resolution in `resolutions`
/// resolves, in declaration order.
pub open spec fn unresolved_axial(normals: Seq<NormalEntry>, resolutions: Seq<PolarityEntry>) -> Seq<
    NormalEntry,
>
    decreases normals.len(),
{
    if normals.len() == 0 {
        seq![]
    } else {
        let rest = unresolved_axial(normals.drop_last(), resolutions);
        if is_resolved(resolutions, normals.last().source.id) {
            rest
        } else {
            rest.push(normals.last())
        }
    }
}

fn resolves(resolutions: &Vec<PolarityEntry>, source: SourceId) -> (resolved: bool)
    ensures
        resolved == is_resolved(resolutions@, source),
{
    let mut i: usize = 0;
    while i < resolutions.len()
        invariant
            i <= resolutions@.len(),
            forall|k: int| 0 <= k < i ==> resolutions@[k].axial_source.id != source,
        decreases resolutions.len() - i,
    {
        if resolutions[i].axial_source.id == source {
            assert(resolutions@[i as int].axial_source.id == source);
            return true;
        }
        i = i + 1;
    }
    false
}

/// Evidence for every axial normal of `inv` whose polarity no resolution
/// fixes, in declaration order, recorded before any backend runs.
pub fn unresolved_axial_normals(inv: &ProblemInventory) -> (evidence: Vec<
    UnresolvedAxialNormalEvidence,
>)
    ensures
        evidence@.len() == unresolved_axial(inv.axial_normals@, inv.polarity_resolutions@).len(),
        forall|k: int|
            0 <= k < evidence@.len() ==> {
                let normal = #[trigger] unresolved_axial(
                    inv.axial_normals@,
                    inv.polarity_resolutions@,
                )[k];
                &&& evidence@[k].source_id_spec() == normal.source.id
                &&& evidence@[k].input_axis_spec() == normal.direction_bits
                &&& !evidence@[k].backend_invoked_spec()
            },
{
    let mut evidence: Vec<UnresolvedAxialNormalEvidence> = Vec::new();
    let mut i: usize = 0;
    while i < inv.axial_normals.len()
        invariant
            i <= inv.axial_normals@.len(),
            evidence@.len() == unresolved_axial(
                inv.axial_normals@.take(i as int),
                inv.polarity_resolutions@,
            ).len(),
            forall|k: int|
                0 <= k < evidence@.len() ==> {
                    let normal = #[trigger] unresolved_axial(
                        inv.axial_normals@.take(i as int),
                        inv.polarity_resolutions@,
                    )[k];
                    &&& evidence@[k].source_id_spec() == normal.source.id
                    &&& evidence@[k].input_axis_spec() == normal.direction_bits
                    &&& !evidence@[k].backend_invoked_spec()
                },
        decreases inv.axial_normals.len() - i,
    {
        proof {
            assert(inv.axial_normals@.take(i as int + 1).drop_last() =~= inv.axial_normals@.take(
                i as int,
            ));
        }
        let normal = inv.axial_normals[i];
        if !resolves(&inv.polarity_resolutions, normal.source.id) {
            evidence.push(UnresolvedAxialNormalEvidence::new(normal.source.id, normal.direction_bits));
        }
        i = i + 1;
    }
    proof {
        assert(inv.axial_normals@.take(i as int) =~= inv.axial_normals@);
    }
    evidence
}

/// Lexicographic order of (group, member) pairs by their identities.
pub open spec fn pair_le(a: (GroupId, SourceId), b: (GroupId, SourceId)) -> bool {
    a.0@ < b.0@ || (a.0@ == b.0@ && a.1@ <= b.1@)
}

/// `s` is in non-decreasing (group, member) order.
pub open spec fn pairs_sorted(s: Seq<(GroupId, SourceId)>) -> bool {
    forall|i: int, j: int| 0 <= i < j < s.len() ==> pair_le(s[i], s[j])
}

fn pair_le_exec(a: (GroupId, SourceId), b: (GroupId, SourceId)) -> (le: bool)
    ensures
        le == pair_le(a, b),
{
    let (ag, as_) = a;
    let (bg, bs) = b;
    ag.value() < bg.value() || (ag.value() == bg.value() && as_.value() <= bs.value())
}

/// `v` in (group, member) order; equal pairs keep their relative order.
fn sort_pairs(v: &Vec<(GroupId, SourceId)>) -> (out: Vec<(GroupId, SourceId)>)
    ensures
        pairs_sorted(out@),
        out@.to_multiset() == v@.to_multiset(),
{
    let mut out: Vec<(GroupId, SourceId)> = Vec::new();
    let mut i: usize = 0;
    proof {
        assert(v@.take(0) =~= out@);
    }
    while i < v.len()
        invariant
            i <= v@.len(),
            pairs_sorted(out@),
            out@.to_multiset() == v@.take(i as int).to_multiset(),
        decreases v.len() - i,
    {
        let x = v[i];
        let mut j: usize = 0;
        while j < out.len() && pair_le_exec(out[j], x)
            invariant
                j <= out@.len(),
                pairs_sorted(out@),
                forall|k: int| 0 <= k < j ==> pair_le(out@[k], x),
            decreases out.len() - j,
        {
            j = j + 1;
        }
        let ghost before = out@;
        assert(forall|k: int| j <= k < before.len() ==> !pair_le(before[k], x)) by {
            assert forall|k: int| j <= k < before.len() implies !pair_le(before[k], x) by {
                assert(!pair_le(before[j as int], x));
                assert(j == k || pair_le(before[j as int], before[k]));
            }
        }
        out.insert(j, x);
        proof {
            assert(out@ == before.insert(j as int, x));
            assert forall|a: int, b: int| 0 <= a < b < out@.len() implies pair_le(out@[a], out@[b]) by {
                if b < j {
                } else if b == j {
                } else if a < j {
                    assert(pair_le(before[a], before[b - 1]));
                } else if a == j {
                    assert(!pair_le(before[b - 1], x));
                } else {
                    assert(pair_le(before[a - 1], before[b - 1]));
                }
            }
            assert(v@.take(i as int + 1) =~= v@.take(i as int).push(x));
            vstd::seq_lib::to_multiset_insert(before, j as int, x);
            vstd::seq_lib::to_multiset_build(v@.take(i as int), x);
        }
        i = i + 1;
    }
    proof {
        assert(v@.take(i as int) =~= v@);
    }
    out
}

/// The (group, member) pair of every shared level set among `groups` that
/// has a single member and that no other input of `inv` references, in
/// declaration order.
pub open spec fn uninformative_pairs(inv: ProblemInventory, groups: Seq<SharedLevelSetEntry>) -> Seq<
    (GroupId, SourceId),
>
    decreases groups.len(),
{
    if groups.len() == 0 {
        seq![]
    } else {
        let rest = uninformative_pairs(inv, groups.drop_last());
        let g = groups.last();
        if g.members@.len() == 1 && !references_group_spec(inv, g.group.id) {
            rest.push((g.group.id, g.members@[0].id))
        } else {
            rest
        }
    }
}

/// The (group, member) pairs that `evidence` records.
pub open spec fn evidence_pairs(evidence: Seq<UninformativeSharedLevelSetEvidence>) -> Seq<
    (GroupId, SourceId),
> {
    evidence.map_values(
        |e: UninformativeSharedLevelSetEvidence| (e.group_id_spec(), e.member_source_id_spec()),
    )
}

/// Evidence for every single-member shared level set of `inv` that nothing
/// else references, in (group, member) order, recorded before any backend
/// runs.
pub fn uninformative_shared_level_sets(inv: &ProblemInventory) -> (evidence: Vec<
    UninformativeSharedLevelSetEvidence,
>)
    ensures
        pairs_sorted(evidence_pairs(evidence@)),
        evidence_pairs(evidence@).to_multiset() == uninformative_pairs(
            *inv,
            inv.shared_level_sets@,
        ).to_multiset(),
        forall|k: int| 0 <= k < evidence@.len() ==> !(#[trigger] evidence@[k]).backend_invoked_spec(),
        forall|k: int, i: int|
            0 <= k < evidence@.len() && 0 <= i < inv.point_to_level_set_relations@.len()
                ==> #[trigger] inv.point_to_level_set_relations@[i].group.id != (#[trigger] evidence@[k]).group_id_spec(),
        forall|k: int, i: int|
            0 <= k < evidence@.len() && 0 <= i < inv.field_separation_intervals@.len()
                ==> #[trigger] inv.field_separation_intervals@[i].reference_group.id != (#[trigger] evidence@[k]).group_id_spec()
                && inv.field_separation_intervals@[i].target_group.id != evidence@[k].group_id_spec(),
        forall|k: int, i: int, j: int|
            0 <= k < evidence@.len() && 0 <= i < inv.shared_level_set_relations@.len() && 0 <= j
                < inv.shared_level_set_relations@[i].groups@.len()
                ==> #[trigger] inv.shared_level_set_relations@[i].groups@[j].id != (#[trigger] evidence@[k]).group_id_spec(),
        forall|k: int| 0 <= k < evidence@.len() ==> !references_group_spec(*inv, (#[trigger] evidence@[k]).group_id_spec()),
{
    let mut pairs: Vec<(GroupId, SourceId)> = Vec::new();
    let mut i: usize = 0;
    while i < inv.shared_level_sets.len()
        invariant
            i <= inv.shared_level_sets@.len(),
            pairs@ == uninformative_pairs(*inv, inv.shared_level_sets@.take(i as int)),
        decreases inv.shared_level_sets.len() - i,
    {
        proof {
            assert(inv.shared_level_sets@.take(i as int + 1).drop_last()
                =~= inv.shared_level_sets@.take(i as int));
        }
        let group = &inv.shared_level_sets[i];
        if group.members.len() == 1 && !references_group(inv, group.group.id) {
            pairs.push((group.group.id, group.members[0].id));
        }
        proof {
            let g = inv.shared_level_sets@.take(i as int + 1).last();
            assert(g == inv.shared_level_sets@[i as int]);
            assert(g.members@ == group.members@);
        }
        i = i + 1;
    }
    proof {
        assert(inv.shared_level_sets@.take(i as int) =~= inv.shared_level_sets@);
    }
    let sorted = sort_pairs(&pairs);
    let mut evidence: Vec<UninformativeSharedLevelSetEvidence> = Vec::new();
    let mut k: usize = 0;
    while k < sorted.len()
        invariant
            k <= sorted@.len(),
            evidence@.len() == k,
            forall|q: int|
                0 <= q < k ==> evidence_pairs(evidence@)[q] == sorted@[q]
                    && !(#[trigger] evidence@[q]).backend_invoked_spec(),
        decreases sorted.len() - k,
    {
        let (g, m) = sorted[k];
        evidence.push(UninformativeSharedLevelSetEvidence::new(g, m, false));
        k = k + 1;
    }
    proof {
        assert(evidence_pairs(evidence@) =~= sorted@);
        lemma_uninformative_unreferenced(*inv, inv.shared_level_sets@);
        assert forall|k: int| 0 <= k < evidence@.len() implies !references_group_spec(*inv, (#[trigger] evidence@[k]).group_id_spec()) by {
            let pair = evidence_pairs(evidence@)[k];
            assert(evidence_pairs(evidence@).contains(pair));
            vstd::seq_lib::to_multiset_contains(evidence_pairs(evidence@), pair);
            vstd::seq_lib::to_multiset_contains(uninformative_pairs(*inv, inv.shared_level_sets@), pair);
            assert(uninformative_pairs(*inv, inv.shared_level_sets@).to_multiset().count(pair) > 0);
            lemma_multiset_count_contains(uninformative_pairs(*inv, inv.shared_level_sets@), pair);
        }
        assert forall|k: int, i: int|
            0 <= k < evidence@.len() && 0 <= i < inv.point_to_level_set_relations@.len()
                implies #[trigger] inv.point_to_level_set_relations@[i].group.id != (#[trigger] evidence@[k]).group_id_spec() by {
            assert(!references_group_spec(*inv, evidence@[k].group_id_spec()));
        }
        assert forall|k: int, i: int|
            0 <= k < evidence@.len() && 0 <= i < inv.field_separation_intervals@.len()
                implies #[trigger] inv.field_separation_intervals@[i].reference_group.id != (#[trigger] evidence@[k]).group_id_spec()
                && inv.field_separation_intervals@[i].target_group.id != evidence@[k].group_id_spec() by {
            assert(!references_group_spec(*inv, evidence@[k].group_id_spec()));
        }
        assert forall|k: int, i: int, j: int|
            0 <= k < evidence@.len() && 0 <= i < inv.shared_level_set_relations@.len() && 0 <= j
                < inv.shared_level_set_relations@[i].groups@.len()
                implies #[trigger] inv.shared_level_set_relations@[i].groups@[j].id != (#[trigger] evidence@[k]).group_id_spec() by {
            assert(!references_group_spec(*inv, evidence@[k].group_id_spec()));
        }
    }
    evidence
}

/// Every pair reported for `groups` names a level set that nothing else
/// references.
proof fn lemma_uninformative_unreferenced(inv: ProblemInventory, groups: Seq<SharedLevelSetEntry>)
    ensures
        forall|q: int|
            0 <= q < uninformative_pairs(inv, groups).len() ==> !references_group_spec(
                inv,
                (#[trigger] uninformative_pairs(inv, groups)[q]).0,
            ),
    decreases groups.len(),
{
    if groups.len() > 0 {
        lemma_uninformative_unreferenced(inv, groups.drop_last());
        let rest = uninformative_pairs(inv, groups.drop_last());
        assert forall|q: int|
            0 <= q < uninformative_pairs(inv, groups).len() implies !references_group_spec(
            inv,
            (#[trigger] uninformative_pairs(inv, groups)[q]).0,
        ) by {
            if q < rest.len() {
                assert(uninformative_pairs(inv, groups)[q] == rest[q]);
            }
        }
    }
}

/// An item counted by a sequence's multiset occurs in the sequence.
proof fn lemma_multiset_count_contains(s: Seq<(GroupId, SourceId)>, x: (GroupId, SourceId))
    requires
        s.to_multiset().count(x) > 0,
    ensures
        s.contains(x),
{
    vstd::seq_lib::to_multiset_contains(s, x);
    broadcast use vstd::seq_lib::group_to_multiset_ensures;
}

/// A point-to-level-set relation references its level set.
pub proof fn lemma_point_relation_references_group(inv: ProblemInventory, i: int)
    requires
        0 <= i < inv.point_to_level_set_relations@.len(),
    ensures
        references_group_spec(inv, inv.point_to_level_set_relations@[i].group.id),
{
}

/// A field-value bound pins the field's additive constant.
pub proof fn lemma_field_value_bound_pins_constant(inv: ProblemInventory)
    requires
        inv.field_value_bounds@.len() > 0,
    ensures
        has_absolute_reference_spec(inv),
{
}

/// An input declared by one caller source.
pub trait Sourced {
    /// The declaring source.
    spec fn declared_source(&self) -> SourceId;

    /// The declaring source.
    fn declared_source_id(&self) -> (id: SourceId)
        ensures
            id == self.declared_source(),
    ;
}

impl Sourced for SourceName {
    open spec fn declared_source(&self) -> SourceId {
        self.id
    }

    fn declared_source_id(&self) -> (id: SourceId) {
        self.id
    }
}

impl Sourced for ObservationEntry {
    open spec fn declared_source(&self) -> SourceId {
        self.source.id
    }

    fn declared_source_id(&self) -> (id: SourceId) {
        self.source.id
    }
}

impl Sourced for CovarianceMemberEntry {
    open spec fn declared_source(&self) -> SourceId {
        self.source.id
    }

    fn declared_source_id(&self) -> (id: SourceId) {
        self.source.id
    }
}

impl Sourced for BoundEntry {
    open spec fn declared_source(&self) -> SourceId {
        self.source.id
    }

    fn declared_source_id(&self) -> (id: SourceId) {
        self.source.id
    }
}

impl Sourced for SeparationEntry {
    open spec fn declared_source(&self) -> SourceId {
        self.source.id
    }

    fn declared_source_id(&self) -> (id: SourceId) {
        self.source.id
    }
}

impl Sourced for PointRelationEntry {
    open spec fn declared_source(&self) -> SourceId {
        self.source.id
    }

    fn declared_source_id(&self) -> (id: SourceId) {
        self.source.id
    }
}

impl Sourced for LevelRelationEntry {
    open spec fn declared_source(&self) -> SourceId {
        self.source.id
    }

    fn declared_source_id(&self) -> (id: SourceId) {
        self.source.id
    }
}

impl Sourced for NormalEntry {
    open spec fn declared_source(&self) -> SourceId {
        self.source.id
    }

    fn declared_source_id(&self) -> (id: SourceId) {
        self.source.id
    }
}

impl Sourced for PolarityEntry {
    open spec fn declared_source(&self) -> SourceId {
        self.source.id
    }

    fn declared_source_id(&self) -> (id: SourceId) {
        self.source.id
    }
}

/// The declaring source of each item of `s`, in order.
pub open spec fn sources_of<T: Sourced>(s: Seq<T>) -> Seq<SourceId>
    decreases s.len(),
{
    if s.len() == 0 {
        seq![]
    } else {
        sources_of(s.drop_last()).push(s.last().declared_source())
    }
}

/// The member sources of every shared level set in `groups`, in order.
pub open spec fn shared_member_sources(groups: Seq<SharedLevelSetEntry>) -> Seq<SourceId>
    decreases groups.len(),
{
    if groups.len() == 0 {
        seq![]
    } else {
        shared_member_sources(groups.drop_last()) + sources_of(groups.last().members@)
    }
}

/// The member sources of every covariance group in `groups`, in order.
pub open spec fn covariance_member_sources(groups: Seq<CovarianceGroupEntry>) -> Seq<SourceId>
    decreases groups.len(),
{
    if groups.len() == 0 {
        seq![]
    } else {
        covariance_member_sources(groups.drop_last()) + sources_of(groups.last().members@)
    }
}

/// The group of every shared level set in `groups`, in order.
pub open spec fn shared_group_ids(groups: Seq<SharedLevelSetEntry>) -> Seq<GroupId>
    decreases groups.len(),
{
    if groups.len() == 0 {
        seq![]
    } else {
        shared_group_ids(groups.drop_last()).push(groups.last().group.id)
    }
}

/// Every source whose relations are blind to a constant shift of the
/// field, when nothing in `inv` pins that constant.
pub open spec fn shift_invariant_sources(inv: ProblemInventory) -> Seq<SourceId> {
    sources_of(inv.observations@) + covariance_member_sources(inv.covariance_groups@)
        + shared_member_sources(inv.shared_level_sets@) + sources_of(
        inv.directional_derivative_intervals@,
    ) + sources_of(inv.field_separation_intervals@) + sources_of(
        inv.point_to_level_set_relations@,
    ) + sources_of(inv.shared_level_set_relations@) + sources_of(inv.directed_normals@)
        + sources_of(inv.axial_normals@) + sources_of(inv.polarity_resolutions@)
}

/// Appends the declaring source of each item to `out`.
fn append_sources<T: Sourced>(out: &mut Vec<SourceId>, items: &Vec<T>)
    ensures
        final(out)@ == old(out)@ + sources_of(items@),
{
    let ghost base = out@;
    let mut i: usize = 0;
    proof {
        assert(base + sources_of(items@.take(0)) =~= base);
    }
    while i < items.len()
        invariant
            i <= items@.len(),
            out@ == base + sources_of(items@.take(i as int)),
        decreases items.len() - i,
    {
        proof {
            assert(items@.take(i as int + 1).drop_last() =~= items@.take(i as int));
        }
        let id = items[i].declared_source_id();
        out.push(id);
        proof {
            assert(out@ =~= base + sources_of(items@.take(i as int + 1)));
        }
        i = i + 1;
    }
    proof {
        assert(items@.take(i as int) =~= items@);
    }
}

/// `s` is in non-decreasing identity order.
pub open spec fn sources_sorted(s: Seq<SourceId>) -> bool {
    forall|i: int, j: int| 0 <= i < j < s.len() ==> s[i]@ <= s[j]@
}

/// `v` in identity order; equal identities keep their relative order.
fn sort_sources(v: &Vec<SourceId>) -> (out: Vec<SourceId>)
    ensures
        sources_sorted(out@),
        out@.to_multiset() == v@.to_multiset(),
{
    let mut out: Vec<SourceId> = Vec::new();
    let mut i: usize = 0;
    proof {
        assert(v@.take(0) =~= out@);
    }
    while i < v.len()
        invariant
            i <= v@.len(),
            sources_sorted(out@),
            out@.to_multiset() == v@.take(i as int).to_multiset(),
        decreases v.len() - i,
    {
        let x = v[i];
        let mut j: usize = 0;
        while j < out.len() && out[j].value() <= x.value()
            invariant
                j <= out@.len(),
                sources_sorted(out@),
                forall|k: int| 0 <= k < j ==> out@[k]@ <= x@,
            decreases out.len() - j,
        {
            j = j + 1;
        }
        let ghost before = out@;
        out.insert(j, x);
        proof {
            assert(out@ == before.insert(j as int, x));
            assert forall|a: int, b: int| 0 <= a < b < out@.len() implies out@[a]@ <= out@[b]@ by {
                if b < j {
                } else if b == j {
                } else if a < j {
                    assert(before[a]@ <= before[b - 1]@);
                } else if a == j {
                    assert(before[j as int]@ <= before[b - 1]@);
                } else {
                    assert(before[a - 1]@ <= before[b - 1]@);
                }
            }
            assert(v@.take(i as int + 1) =~= v@.take(i as int).push(x));
            vstd::seq_lib::to_multiset_insert(before, j as int, x);
            vstd::seq_lib::to_multiset_build(v@.take(i as int), x);
        }
        i = i + 1;
    }
    proof {
        assert(v@.take(i as int) =~= v@);
    }
    out
}

/// Evidence that nothing in `inv` pins the field's additive constant: every
/// shift-invariant source in identity order and every shared level set in
/// declaration order; `None` when some input pins the constant.
pub fn unidentified_additive_gauge(inv: &ProblemInventory) -> (evidence: Option<
    UnidentifiedAdditiveGaugeEvidence,
>)
    ensures
        evidence is Some <==> !has_absolute_reference_spec(*inv),
        inv.field_value_bounds@.len() > 0 ==> evidence is None,
        inv.additive_field_gauges@.len() > 0 ==> evidence is None,
        forall|i: int|
            0 <= i < inv.observations@.len() && #[trigger] inv.observations@[i].kind == ObservationKind::FieldValue
                ==> evidence is None,
        forall|i: int, j: int|
            0 <= i < inv.covariance_groups@.len() && 0 <= j < inv.covariance_groups@[i].members@.len()
                && #[trigger] inv.covariance_groups@[i].members@[j].field_value ==> evidence is None,
        evidence matches Some(e) ==> {
            &&& sources_sorted(e.source_ids_spec())
            &&& e.source_ids_spec().to_multiset() == shift_invariant_sources(*inv).to_multiset()
            &&& e.group_ids_spec() == shared_group_ids(inv.shared_level_sets@)
            &&& !e.backend_invoked_spec()
        },
{
    if has_absolute_reference(inv) {
        return None;
    }
    let mut ids: Vec<SourceId> = Vec::new();
    append_sources(&mut ids, &inv.observations);
    let mut g: usize = 0;
    while g < inv.covariance_groups.len()
        invariant
            g <= inv.covariance_groups@.len(),
            ids@ == sources_of(inv.observations@) + covariance_member_sources(
                inv.covariance_groups@.take(g as int),
            ),
        decreases inv.covariance_groups.len() - g,
    {
        proof {
            assert(inv.covariance_groups@.take(g as int + 1).drop_last()
                =~= inv.covariance_groups@.take(g as int));
        }
        append_sources(&mut ids, &inv.covariance_groups[g].members);
        proof {
            assert(ids@ =~= sources_of(inv.observations@) + covariance_member_sources(
                inv.covariance_groups@.take(g as int + 1),
            ));
        }
        g = g + 1;
    }
    proof {
        assert(inv.covariance_groups@.take(g as int) =~= inv.covariance_groups@);
    }
    let ghost prefix = ids@;
    let mut s: usize = 0;
    while s < inv.shared_level_sets.len()
        invariant
            s <= inv.shared_level_sets@.len(),
            ids@ == prefix + shared_member_sources(inv.shared_level_sets@.take(s as int)),
        decreases inv.shared_level_sets.len() - s,
    {
        proof {
            assert(inv.shared_level_sets@.take(s as int + 1).drop_last()
                =~= inv.shared_level_sets@.take(s as int));
        }
        append_sources(&mut ids, &inv.shared_level_sets[s].members);
        proof {
            assert(ids@ =~= prefix + shared_member_sources(inv.shared_level_sets@.take(s as int + 1)));
        }
        s = s + 1;
    }
    proof {
        assert(inv.shared_level_sets@.take(s as int) =~= inv.shared_level_sets@);
    }
    append_sources(&mut ids, &inv.directional_derivative_intervals);
    append_sources(&mut ids, &inv.field_separation_intervals);
    append_sources(&mut ids, &inv.point_to_level_set_relations);
    append_sources(&mut ids, &inv.shared_level_set_relations);
    append_sources(&mut ids, &inv.directed_normals);
    append_sources(&mut ids, &inv.axial_normals);
    append_sources(&mut ids, &inv.polarity_resolutions);
    proof {
        assert(ids@ =~= shift_invariant_sources(*inv));
    }
    let sorted = sort_sources(&ids);
    let mut groups: Vec<GroupId> = Vec::new();
    let mut k: usize = 0;
    while k < inv.shared_level_sets.len()
        invariant
            k <= inv.shared_level_sets@.len(),
            groups@ == shared_group_ids(inv.shared_level_sets@.take(k as int)),
        decreases inv.shared_level_sets.len() - k,
    {
        proof {
            assert(inv.shared_level_sets@.take(k as int + 1).drop_last()
                =~= inv.shared_level_sets@.take(k as int));
        }
        groups.push(inv.shared_level_sets[k].group.id);
        k = k + 1;
    }
    proof {
        assert(inv.shared_level_sets@.take(k as int) =~= inv.shared_level_sets@);
    }
    Some(UnidentifiedAdditiveGaugeEvidence::new(sorted, groups, false))
}

/// The sides present on bound entries `s`.
pub open spec fn present_sides(s: Seq<BoundEntry>) -> nat
    decreases s.len(),
{
    if s.len() == 0 {
        0
    } else {
        present_sides(s.drop_last()) + (if s.last().lower is Some {
            1nat
        } else {
            0nat
        }) + (if s.last().upper is Some {
            1nat
        } else {
            0nat
        })
    }
}

/// The affine inequalities a report counts before lowering: every present
/// side of a field-value bound or derivative interval, both sides of a
/// field-separation interval, and one for each point relation, relation
/// between level sets and normal.
pub open spec fn declared_affine_sides(inv: ProblemInventory) -> nat {
    present_sides(inv.field_value_bounds@) + present_sides(inv.directional_derivative_intervals@)
        + 2 * inv.field_separation_intervals@.len() + inv.point_to_level_set_relations@.len()
        + inv.shared_level_set_relations@.len() + inv.directed_normals@.len()
        + inv.axial_normals@.len()
}

fn count_present_sides(bounds: &Vec<BoundEntry>, start: usize) -> (count: usize)
    requires
        start + present_sides(bounds@) <= usize::MAX,
    ensures
        count == start + present_sides(bounds@),
{
    let mut count = start;
    let mut i: usize = 0;
    while i < bounds.len()
        invariant
            i <= bounds@.len(),
            start + present_sides(bounds@) <= usize::MAX,
            count == start + present_sides(bounds@.take(i as int)),
        decreases bounds.len() - i,
    {
        proof {
            assert(bounds@.take(i as int + 1).drop_last() =~= bounds@.take(i as int));
            lemma_present_sides_prefix(bounds@, i as int + 1);
        }
        let bound = bounds[i];
        if bound.lower.is_some() {
            count = count + 1;
        }
        if bound.upper.is_some() {
            count = count + 1;
        }
        i = i + 1;
    }
    proof {
        assert(bounds@.take(i as int) =~= bounds@);
    }
    count
}

/// A prefix of bound entries has no more sides than the whole.
proof fn lemma_present_sides_prefix(s: Seq<BoundEntry>, n: int)
    requires
        0 <= n <= s.len(),
    ensures
        present_sides(s.take(n)) <= present_sides(s),
    decreases s.len() - n,
{
    if n < s.len() {
        lemma_present_sides_prefix(s, n + 1);
        assert(s.take(n + 1).drop_last() =~= s.take(n));
    } else {
        assert(s.take(n) =~= s);
    }
}

/// The affine inequalities `inv` declares before lowering.
pub fn declared_affine_side_count(inv: &ProblemInventory) -> (count: usize)
    requires
        declared_affine_sides(*inv) <= usize::MAX,
    ensures
        count == declared_affine_sides(*inv),
{
    let c = count_present_sides(&inv.field_value_bounds, 0);
    let c = count_present_sides(&inv.directional_derivative_intervals, c);
    let c = c + 2 * inv.field_separation_intervals.len();
    let c = c + inv.point_to_level_set_relations.len();
    let c = c + inv.shared_level_set_relations.len();
    let c = c + inv.directed_normals.len();
    c + inv.axial_normals.len()
}

/// `value`, or `usize::MAX` when it is `None`.
pub open spec fn or_max(value: Option<usize>) -> usize {
    match value {
        Some(v) => v,
        None => usize::MAX,
    }
}

/// What structural preflight records of a problem before lowering it.
#[derive(Debug, Clone)]
pub struct StructuralPreflight {
    /// The size recorded before lowering; counts that overflow are `usize::MAX`.
    pub problem_size: ProblemSize,
    /// All scalar relations, or `usize::MAX` when they overflow.
    pub scalar_relation_count: usize,
    /// Bytes of retained caller identifiers, or `usize::MAX` when they overflow.
    pub source_identifier_bytes: usize,
    pub unresolved_axial_normals: Vec<UnresolvedAxialNormalEvidence>,
    pub uninformative_shared_level_sets: Vec<UninformativeSharedLevelSetEvidence>,
    pub unidentified_additive_gauge: Option<UnidentifiedAdditiveGaugeEvidence>,
}

/// Runs structural preflight over `inv`: the conservative problem size,
/// the storage it needs, and the findings that need no lowering.
pub fn structural_preflight(inv: &ProblemInventory) -> (preflight: StructuralPreflight)
    requires
        declared_affine_sides(*inv) <= usize::MAX,
    ensures
        ({
            let hard = if hard_relations(*inv) <= usize::MAX && soft_relations(*inv)
                <= usize::MAX {
                hard_relations(*inv)
            } else {
                usize::MAX as nat
            };
            let soft = if hard_relations(*inv) <= usize::MAX && soft_relations(*inv)
                <= usize::MAX {
                soft_relations(*inv)
            } else {
                usize::MAX as nat
            };
            let size = preflight.problem_size;
            &&& size.input_observations_spec() == (if input_observations_spec(*inv)
                <= usize::MAX {
                input_observations_spec(*inv) as usize
            } else {
                usize::MAX
            })
            &&& size.scalar_hard_relations_spec() == hard
            &&& size.scalar_soft_relations_spec() == soft
            &&& size.canonical_hard_equalities_spec() is None
            &&& size.canonical_soft_equalities_spec() is None
            &&& size.center_coefficients_spec() is None
            &&& size.semantic_latents_spec() == inv.shared_level_sets@.len()
            &&& size.auxiliary_variables_spec() == 0
            &&& size.quadratic_objective_terms_spec() == or_max(
                bounded(quadratic_terms(*inv) as int),
            )
            &&& size.linear_objective_terms_spec() == or_max(bounded(linear_terms(*inv) as int))
            &&& size.affine_inequality_constraints_spec() == declared_affine_sides(*inv)
            &&& size.cone_blocks_spec() == 0
            &&& size.primal_variables_spec() is None
            &&& size.equality_constraints_spec() is None
            &&& size.kkt_dimension_spec() is None
            &&& preflight.scalar_relation_count == or_max(bounded((hard + soft) as int))
        }),
        preflight.source_identifier_bytes == or_max(bounded(identifier_bytes(*inv) as int)),
        preflight.unresolved_axial_normals@.len() == unresolved_axial(
            inv.axial_normals@,
            inv.polarity_resolutions@,
        ).len(),
        forall|k: int|
            0 <= k < preflight.unresolved_axial_normals@.len() ==> {
                let normal = #[trigger] unresolved_axial(
                    inv.axial_normals@,
                    inv.polarity_resolutions@,
                )[k];
                &&& preflight.unresolved_axial_normals@[k].source_id_spec() == normal.source.id
                &&& preflight.unresolved_axial_normals@[k].input_axis_spec()
                    == normal.direction_bits
                &&& !preflight.unresolved_axial_normals@[k].backend_invoked_spec()
            },
        pairs_sorted(evidence_pairs(preflight.uninformative_shared_level_sets@)),
        evidence_pairs(preflight.uninformative_shared_level_sets@).to_multiset()
            == uninformative_pairs(*inv, inv.shared_level_sets@).to_multiset(),
        forall|k: int|
            0 <= k < preflight.uninformative_shared_level_sets@.len()
                ==> !(#[trigger] preflight.uninformative_shared_level_sets@[k]).backend_invoked_spec(),
        preflight.unidentified_additive_gauge is Some <==> !has_absolute_reference_spec(*inv),
        preflight.unidentified_additive_gauge matches Some(e) ==> {
            &&& sources_sorted(e.source_ids_spec())
            &&& e.source_ids_spec().to_multiset() == shift_invariant_sources(*inv).to_multiset()
            &&& e.group_ids_spec() == shared_group_ids(inv.shared_level_sets@)
            &&& !e.backend_invoked_spec()
        },
{
    let counts = match crate::inventory::scalar_relation_counts(inv) {
        Some(c) => c,
        None => ScalarRelationCounts { hard: usize::MAX, soft: usize::MAX },
    };
    let scalar_relation_count = match counts.total() {
        Some(t) => t,
        None => usize::MAX,
    };
    let quadratic = match crate::inventory::quadratic_objective_term_count(inv) {
        Some(q) => q,
        None => usize::MAX,
    };
    let linear = match crate::inventory::linear_objective_term_count(inv) {
        Some(l) => l,
        None => usize::MAX,
    };
    let source_identifier_bytes = match crate::inventory::source_identifier_bytes(inv) {
        Some(b) => b,
        None => usize::MAX,
    };
    let input_observations = input_observation_count(inv);
    let sides = declared_affine_side_count(inv);
    let problem_size = conservative_problem_size(
        input_observations,
        counts,
        inv.shared_level_sets.len(),
        quadratic,
        linear,
        sides,
    );
    StructuralPreflight {
        problem_size,
        scalar_relation_count,
        source_identifier_bytes,
        unresolved_axial_normals: unresolved_axial_normals(inv),
        uninformative_shared_level_sets: uninformative_shared_level_sets(inv),
        unidentified_additive_gauge: unidentified_additive_gauge(inv),
    }
}

} // verus!
