//! Stable identities of caller sources, semantic groups and roles, and the
//! labels of scalar degrees of freedom.
use crate::parameters::Axis;
use vstd::prelude::*;

verus! {

/// A caller-owned source identity.
///
/// Evidence is ordered by these numbers: a caller that names its sources
/// by text assigns the numbers in the text order of the names, so that
/// orders of evidence follow the names.
#[derive(Clone, Copy, Debug, Eq, Hash, PartialEq, Structural)]
pub struct SourceId {
    value: u64,
}

/// A stable semantic group identity, such as a shared level set.
///
/// As with sources, the numbers follow the text order of the caller's
/// group names.
#[derive(Clone, Copy, Debug, Eq, Hash, PartialEq, Structural)]
pub struct GroupId {
    value: u64,
}

/// A stable canonical semantic role.
#[derive(Clone, Copy, Debug, Eq, Hash, PartialEq, Structural)]
pub struct SemanticRolePath {
    code: u64,
}

impl View for SourceId {
    type V = u64;

    closed spec fn view(&self) -> u64 {
        self.value
    }
}

impl View for GroupId {
    type V = u64;

    closed spec fn view(&self) -> u64 {
        self.value
    }
}

impl View for SemanticRolePath {
    type V = u64;

    closed spec fn view(&self) -> u64 {
        self.code
    }
}

impl SourceId {
    /// The source with identity `value`.
    pub fn new(value: u64) -> (id: Self)
        ensures
            id@ == value,
    {
        Self { value }
    }

    /// The numeric identity.
    pub fn value(self) -> (value: u64)
        ensures
            value == self@,
    {
        self.value
    }

    /// Two sources are one exactly when their identities agree.
    pub proof fn lemma_view_injective(a: Self, b: Self)
        ensures
            a@ == b@ <==> a == b,
    {
    }
}

impl GroupId {
    /// The group with identity `value`.
    pub fn new(value: u64) -> (id: Self)
        ensures
            id@ == value,
    {
        Self { value }
    }

    /// The numeric identity.
    pub fn value(self) -> (value: u64)
        ensures
            value == self@,
    {
        self.value
    }

    /// Two groups are one exactly when their identities agree.
    pub proof fn lemma_view_injective(a: Self, b: Self)
        ensures
            a@ == b@ <==> a == b,
    {
    }
}

impl SemanticRolePath {
    /// The role with code `code`.
    pub fn new(code: u64) -> (role: Self)
        ensures
            role@ == code,
    {
        Self { code }
    }

    /// The numeric role code.
    pub fn code(self) -> (code: u64)
        ensures
            code == self@,
    {
        self.code
    }

    /// Two roles are one exactly when their codes agree.
    pub proof fn lemma_view_injective(a: Self, b: Self)
        ensures
            a@ == b@ <==> a == b,
    {
    }
}

/// A model-independent label for one scalar degree of freedom.
///
/// Planar constraints contribute one `Derivative` label per Cartesian axis;
/// the layout layer assigns matrix indices.
#[derive(Clone, Copy, Debug, Eq, Hash, PartialEq, Structural)]
pub enum DofLabel {
    Value,
    Derivative(Axis),
    Tangent,
    Difference,
}

/// Group identities in strictly increasing order.
pub open spec fn strictly_increasing_groups(ids: Seq<GroupId>) -> bool {
    forall|i: int, j: int| 0 <= i < j < ids.len() ==> ids[i]@ < ids[j]@
}

/// The distinct group identities of `ids`, in increasing order.
pub fn sorted_unique_group_ids(ids: Vec<GroupId>) -> (sorted: Vec<GroupId>)
    ensures
        strictly_increasing_groups(sorted@),
        forall|g: GroupId| sorted@.contains(g) <==> ids@.contains(g),
{
    let mut sorted: Vec<GroupId> = Vec::new();
    let mut index: usize = 0;
    while index < ids.len()
        invariant
            index <= ids.len(),
            strictly_increasing_groups(sorted@),
            forall|g: GroupId| sorted@.contains(g) <==> ids@.take(index as int).contains(g),
        decreases ids.len() - index,
    {
        let id = ids[index];
        let mut position: usize = 0;
        while position < sorted.len() && sorted[position].value < id.value
            invariant
                position <= sorted.len(),
                forall|i: int| 0 <= i < position ==> sorted@[i]@ < id@,
            decreases sorted.len() - position,
        {
            position = position + 1;
        }
        let ghost before = sorted@;
        let ghost prev = ids@.take(index as int);
        let ghost next = ids@.take(index + 1);
        proof {
            assert(next == prev.push(id));
        }
        if position < sorted.len() && sorted[position].value == id.value {
            proof {
                assert(sorted@[position as int] == id);
                assert forall|g: GroupId| sorted@.contains(g) <==> next.contains(g) by {
                    if next.contains(g) && g != id {
                        let k = choose|k: int| 0 <= k < next.len() && next[k] == g;
                        assert(prev[k] == g);
                    }
                }
            }
        } else {
            sorted.insert(position, id);
            proof {
                assert forall|i: int, j: int| 0 <= i < j < sorted@.len() implies sorted@[i]@
                    < sorted@[j]@ by {
                    if j < position {
                        assert(sorted@[i] == before[i] && sorted@[j] == before[j]);
                    } else if j == position {
                        assert(sorted@[i] == before[i]);
                    } else if i < position {
                        assert(sorted@[i] == before[i] && sorted@[j] == before[j - 1]);
                    } else if i == position {
                        assert(sorted@[j] == before[j - 1]);
                        assert(before[position as int]@ >= id@);
                        assert(before[position as int]@ != id@);
                    } else {
                        assert(sorted@[i] == before[i - 1] && sorted@[j] == before[j - 1]);
                    }
                }
                assert forall|g: GroupId| sorted@.contains(g) <==> next.contains(g) by {
                    if sorted@.contains(g) && g != id {
                        let k = choose|k: int| 0 <= k < sorted@.len() && sorted@[k] == g;
                        if k < position {
                            assert(before[k] == g);
                        } else {
                            assert(before[k - 1] == g);
                        }
                        assert(before.contains(g));
                        assert(prev.contains(g));
                        let j = choose|j: int| 0 <= j < prev.len() && prev[j] == g;
                        assert(next[j] == g);
                    }
                    if g == id {
                        assert(sorted@[position as int] == id);
                        assert(next[index as int] == id);
                    } else if next.contains(g) {
                        let k = choose|k: int| 0 <= k < next.len() && next[k] == g;
                        assert(prev[k] == g);
                        assert(prev.contains(g));
                        assert(before.contains(g));
                        let m = choose|m: int| 0 <= m < before.len() && before[m] == g;
                        if m < position {
                            assert(sorted@[m] == g);
                        } else {
                            assert(sorted@[m + 1] == g);
                        }
                    }
                }
            }
        }
        index = index + 1;
    }
    proof {
        assert(ids@.take(ids.len() as int) == ids@);
    }
    sorted
}

} // verus!
