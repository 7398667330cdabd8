//! Conflict witnesses: the canonical relations of a verified affine
//! combination and the sources behind them, in canonical source order.
use crate::diagnostics::CanonicalEvidenceSource;
use crate::functional::{GroupId, SemanticRolePath, SourceId};
use vstd::prelude::*;

verus! {

/// An item placed by the identity of its source and then its semantic role.
pub trait SourceKeyed: Sized {
    /// The identity and role code the item is placed by.
    spec fn source_key(&self) -> (u64, u64);

    /// Returns the key the item is placed by.
    fn key(&self) -> (key: (u64, u64))
        ensures
            key == self.source_key(),
    ;
}

impl SourceKeyed for CanonicalEvidenceSource {
    open spec fn source_key(&self) -> (u64, u64) {
        (self.source_id_spec()@, self.semantic_role_spec()@)
    }

    fn key(&self) -> (key: (u64, u64)) {
        (self.source_id().value(), self.semantic_role().code())
    }
}

/// Key `a` comes strictly before key `b`.
pub open spec fn key_before(a: (u64, u64), b: (u64, u64)) -> bool {
    a.0 < b.0 || (a.0 == b.0 && a.1 < b.1)
}

fn is_key_before(a: (u64, u64), b: (u64, u64)) -> (before: bool)
    ensures
        before == key_before(a, b),
{
    a.0 < b.0 || (a.0 == b.0 && a.1 < b.1)
}

/// No item of `s` comes after a later one.
pub open spec fn keyed_sorted<T: SourceKeyed>(s: Seq<T>) -> bool {
    forall|i: int, j: int| 0 <= i < j < s.len() ==> !key_before(s[j].source_key(), s[i].source_key())
}

/// The items of `s` with key `key`, in their order in `s`.
pub open spec fn with_key<T: SourceKeyed>(s: Seq<T>, key: (u64, u64)) -> Seq<T>
    decreases s.len(),
{
    if s.len() == 0 {
        Seq::empty()
    } else {
        let rest = with_key(s.drop_last(), key);
        if s.last().source_key() == key {
            rest.push(s.last())
        } else {
            rest
        }
    }
}

proof fn lemma_with_key_concat<T: SourceKeyed>(a: Seq<T>, b: Seq<T>, key: (u64, u64))
    ensures
        with_key(a + b, key) == with_key(a, key) + with_key(b, key),
    decreases b.len(),
{
    if b.len() == 0 {
        assert(a + b =~= a);
        assert(with_key(a, key) + with_key(b, key) =~= with_key(a, key));
    } else {
        lemma_with_key_concat(a, b.drop_last(), key);
        assert((a + b).drop_last() =~= a + b.drop_last());
        assert((a + b).last() == b.last());
        if b.last().source_key() == key {
            assert(with_key(a, key) + with_key(b.drop_last(), key).push(b.last()) =~= (with_key(a, key)
                + with_key(b.drop_last(), key)).push(b.last()));
        }
    }
}

proof fn lemma_with_key_absent<T: SourceKeyed>(s: Seq<T>, key: (u64, u64))
    requires
        forall|i: int| 0 <= i < s.len() ==> (#[trigger] s[i]).source_key() != key,
    ensures
        with_key(s, key) == Seq::<T>::empty(),
    decreases s.len(),
{
    if s.len() > 0 {
        lemma_with_key_absent(s.drop_last(), key);
        assert(s.last() == s[s.len() - 1]);
    }
}

/// The items of `items` in key order; items of one key keep their order.
pub fn stable_sort_by_key<T: SourceKeyed>(items: Vec<T>) -> (sorted: Vec<T>)
    ensures
        keyed_sorted(sorted@),
        forall|key: (u64, u64)| #[trigger] with_key(sorted@, key) == with_key(items@, key),
{
    let ghost original = items@;
    let mut rest = items;
    let mut sorted: Vec<T> = Vec::new();
    while rest.len() > 0
        invariant
            rest.len() <= original.len(),
            rest@ == original.subrange(original.len() - rest.len(), original.len() as int),
            keyed_sorted(sorted@),
            forall|key: (u64, u64)|
                #[trigger] with_key(sorted@, key) == with_key(original.take(original.len() - rest.len()), key),
        decreases rest.len(),
    {
        let ghost t = original.len() - rest.len();
        let x = rest.remove(0);
        proof {
            assert(x == original[t]);
            assert(rest@ =~= original.subrange(t + 1, original.len() as int));
        }
        let k = x.key();
        let mut p: usize = 0;
        while p < sorted.len() && !is_key_before(k, sorted[p].key())
            invariant
                p <= sorted.len(),
                forall|i: int| 0 <= i < p ==> !key_before(k, (#[trigger] sorted@[i]).source_key()),
            decreases sorted.len() - p,
        {
            p = p + 1;
        }
        let ghost old_sorted = sorted@;
        proof {
            assert forall|j: int| p <= j < old_sorted.len() implies key_before(k, (#[trigger] old_sorted[j]).source_key()) by {
                assert(key_before(k, old_sorted[p as int].source_key()));
                if j > p {
                    assert(!key_before(old_sorted[j].source_key(), old_sorted[p as int].source_key()));
                }
            }
        }
        sorted.insert(p, x);
        proof {
            let front = old_sorted.take(p as int);
            let back = old_sorted.skip(p as int);
            assert(sorted@ =~= front.push(x) + back);
            assert(old_sorted =~= front + back);
            assert(original.take(t + 1) =~= original.take(t).push(x));
            assert forall|i: int, j: int| 0 <= i < j < sorted@.len() implies !key_before(
                sorted@[j].source_key(),
                sorted@[i].source_key(),
            ) by {
                if j < p {
                    assert(sorted@[i] == old_sorted[i] && sorted@[j] == old_sorted[j]);
                } else if j == p {
                    assert(sorted@[i] == old_sorted[i]);
                } else if i < p {
                    assert(sorted@[i] == old_sorted[i] && sorted@[j] == old_sorted[j - 1]);
                    assert(key_before(k, old_sorted[j - 1].source_key()));
                } else if i == p {
                    assert(sorted@[j] == old_sorted[j - 1]);
                    assert(key_before(k, old_sorted[j - 1].source_key()));
                } else {
                    assert(sorted@[i] == old_sorted[i - 1] && sorted@[j] == old_sorted[j - 1]);
                }
            }
            assert forall|key: (u64, u64)| #[trigger] with_key(sorted@, key) == with_key(original.take(t + 1), key) by {
                lemma_with_key_concat(front.push(x), back, key);
                lemma_with_key_concat(front, back, key);
                assert((front.push(x)).drop_last() =~= front);
                assert((front.push(x)).last() == x);
                assert(original.take(t).push(x).drop_last() =~= original.take(t));
                assert(with_key(old_sorted, key) == with_key(original.take(t), key));
                assert(x.source_key() == k);
                if key == k {
                    assert forall|i: int| 0 <= i < back.len() implies (#[trigger] back[i]).source_key() != key by {
                        assert(back[i] == old_sorted[p + i]);
                        assert(key_before(k, old_sorted[p + i].source_key()));
                    }
                    lemma_with_key_absent(back, key);
                    assert(with_key(front, key) + Seq::<T>::empty() =~= with_key(front, key));
                    assert(with_key(front.push(x), key) + Seq::<T>::empty() =~= with_key(front.push(x), key));
                    assert(with_key(front.push(x), key) == with_key(front, key).push(x));
                    assert(with_key(original.take(t + 1), key) == with_key(original.take(t), key).push(x));
                } else {
                    assert(with_key(front.push(x), key) == with_key(front, key));
                    assert(with_key(original.take(t + 1), key) == with_key(original.take(t), key));
                }
            }
        }
    }
    proof {
        assert(original.take(original.len() as int) =~= original);
    }
    sorted
}


/// One canonical relation of a verified affine combination, with its
/// coefficient held as binary64 bits.
#[derive(Debug)]
pub struct ConflictWitnessRelationEvidence {
    source: CanonicalEvidenceSource,
    multiplier_bits: u64,
}

impl ConflictWitnessRelationEvidence {
    /// The recorded source.
    pub closed spec fn source_spec(self) -> CanonicalEvidenceSource {
        self.source
    }

    /// The recorded coefficient bits.
    pub closed spec fn multiplier_bits_spec(self) -> u64 {
        self.multiplier_bits
    }

    /// The relation of `source` with coefficient bits `multiplier_bits`.
    pub fn new(source: CanonicalEvidenceSource, multiplier_bits: u64) -> (relation: Self)
        ensures
            relation.source_spec() == source,
            relation.multiplier_bits_spec() == multiplier_bits,
    {
        Self { source, multiplier_bits }
    }

    /// Returns the original caller-owned relation provenance.
    pub fn source(&self) -> (source: &CanonicalEvidenceSource)
        ensures
            *source == self.source_spec(),
    {
        &self.source
    }

    /// Returns the binary64 bits of this relation's coefficient in the
    /// verified affine combination.
    pub fn multiplier_bits(&self) -> (bits: u64)
        ensures
            bits == self.multiplier_bits_spec(),
    {
        self.multiplier_bits
    }
}

impl SourceKeyed for ConflictWitnessRelationEvidence {
    open spec fn source_key(&self) -> (u64, u64) {
        self.source_spec().source_key()
    }

    fn key(&self) -> (key: (u64, u64)) {
        self.source().key()
    }
}

/// Two sources record the same identity, groups and role.
pub open spec fn same_source(a: CanonicalEvidenceSource, b: CanonicalEvidenceSource) -> bool {
    &&& a.source_id_spec() == b.source_id_spec()
    &&& a.group_ids_spec() == b.group_ids_spec()
    &&& a.semantic_role_spec() == b.semantic_role_spec()
}

/// `s` with every source that repeats the one just before it left out.
pub open spec fn without_repeats(s: Seq<CanonicalEvidenceSource>) -> Seq<CanonicalEvidenceSource>
    decreases s.len(),
{
    if s.len() == 0 {
        Seq::empty()
    } else if s.len() >= 2 && same_source(s[s.len() - 2], s[s.len() - 1]) {
        without_repeats(s.drop_last())
    } else {
        without_repeats(s.drop_last()).push(s.last())
    }
}

fn sources_match(a: &CanonicalEvidenceSource, b: &CanonicalEvidenceSource) -> (same: bool)
    ensures
        same == same_source(*a, *b),
{
    if a.source_id().value() != b.source_id().value() || a.semantic_role().code() != b.semantic_role().code() {
        proof {
            crate::functional::SourceId::lemma_view_injective(a.source_id_spec(), b.source_id_spec());
            crate::functional::SemanticRolePath::lemma_view_injective(a.semantic_role_spec(), b.semantic_role_spec());
        }
        return false;
    }
    proof {
        crate::functional::SourceId::lemma_view_injective(a.source_id_spec(), b.source_id_spec());
    }
    let left = a.group_ids();
    let right = b.group_ids();
    if left.len() != right.len() {
        return false;
    }
    let mut i: usize = 0;
    while i < left.len()
        invariant
            i <= left.len(),
            left.len() == right.len(),
            forall|j: int| 0 <= j < i ==> left@[j] == right@[j],
            left@ == a.group_ids_spec(),
            right@ == b.group_ids_spec(),
        decreases left.len() - i,
    {
        if left[i].value() != right[i].value() {
            proof {
                crate::functional::GroupId::lemma_view_injective(left@[i as int], right@[i as int]);
                assert(left@[i as int] != right@[i as int]);
                assert(left@ != right@);
            }
            return false;
        }
        proof {
            crate::functional::GroupId::lemma_view_injective(left@[i as int], right@[i as int]);
        }
        i = i + 1;
    }
    proof {
        assert(left@ =~= right@);
        crate::functional::SemanticRolePath::lemma_view_injective(a.semantic_role_spec(), b.semantic_role_spec());
    }
    true
}

/// `items` with every source that repeats the one just before it left out.
fn drop_repeats(items: Vec<CanonicalEvidenceSource>) -> (kept: Vec<CanonicalEvidenceSource>)
    ensures
        kept@ == without_repeats(items@),
{
    let ghost original = items@;
    let mut rest = items;
    let mut kept: Vec<CanonicalEvidenceSource> = Vec::new();
    while rest.len() > 0
        invariant
            rest.len() <= original.len(),
            rest@ == original.subrange(original.len() - rest.len(), original.len() as int),
            kept@ == without_repeats(original.take(original.len() - rest.len())),
            original.len() - rest.len() > 0 ==> kept.len() > 0 && same_source(
                kept@.last(),
                original[original.len() - rest.len() - 1],
            ),
        decreases rest.len(),
    {
        let ghost t = original.len() - rest.len();
        let x = rest.remove(0);
        proof {
            assert(x == original[t]);
            assert(rest@ =~= original.subrange(t + 1, original.len() as int));
            let next = original.take(t + 1);
            assert(next.drop_last() =~= original.take(t));
            assert(next.last() == x);
            if t >= 1 {
                assert(next[next.len() - 2] == original[t - 1]);
            }
        }
        let repeat = if kept.len() > 0 {
            let last = kept.len() - 1;
            sources_match(&kept[last], &x)
        } else {
            false
        };
        if !repeat {
            kept.push(x);
        }
    }
    proof {
        assert(original.take(original.len() as int) =~= original);
    }
    kept
}

/// Identities in strictly increasing order.
pub open spec fn increasing_ids(ids: Seq<SourceId>) -> bool {
    forall|i: int, j: int| 0 <= i < j < ids.len() ==> ids[i]@ < ids[j]@
}

/// The distinct identities of `sources`, which are in key order, in
/// increasing order.
fn distinct_source_ids(sources: &Vec<CanonicalEvidenceSource>) -> (ids: Vec<SourceId>)
    requires
        keyed_sorted(sources@),
    ensures
        increasing_ids(ids@),
        forall|id: SourceId|
            ids@.contains(id) <==> exists|i: int| 0 <= i < sources.len() && (#[trigger] sources@[i]).source_id_spec() == id,
{
    let mut ids: Vec<SourceId> = Vec::new();
    let mut i: usize = 0;
    while i < sources.len()
        invariant
            i <= sources.len(),
            keyed_sorted(sources@),
            increasing_ids(ids@),
            i > 0 ==> ids.len() > 0 && ids@.last() == sources@[i - 1].source_id_spec(),
            i == 0 ==> ids.len() == 0,
            forall|id: SourceId|
                ids@.contains(id) <==> exists|j: int| 0 <= j < i && (#[trigger] sources@[j]).source_id_spec() == id,
        decreases sources.len() - i,
    {
        let id = *sources[i].source_id();
        let ghost before = ids@;
        if ids.len() == 0 || ids[ids.len() - 1].value() != id.value() {
            proof {
                if i > 0 {
                    assert(!key_before(sources@[i as int].source_key(), sources@[i - 1].source_key()));
                    assert(before.last()@ <= id@);
                    crate::functional::SourceId::lemma_view_injective(before.last(), id);
                }
            }
            ids.push(id);
            proof {
                assert forall|a: int, b: int| 0 <= a < b < ids@.len() implies ids@[a]@ < ids@[b]@ by {
                    if b < before.len() {
                        assert(ids@[a] == before[a] && ids@[b] == before[b]);
                    } else if a < before.len() - 1 {
                        assert(ids@[a] == before[a]);
                        assert(before[a]@ < before.last()@);
                    } else {
                        assert(ids@[a] == before.last());
                    }
                }
                assert forall|x: SourceId| ids@.contains(x) <==> exists|j: int| 0 <= j < i + 1 && (#[trigger] sources@[j]).source_id_spec() == x by {
                    if ids@.contains(x) && x != id {
                        let q = choose|q: int| 0 <= q < ids@.len() && ids@[q] == x;
                        assert(before[q] == x);
                        assert(before.contains(x));
                    }
                    if exists|j: int| 0 <= j < i + 1 && (#[trigger] sources@[j]).source_id_spec() == x {
                        let j = choose|j: int| 0 <= j < i + 1 && (#[trigger] sources@[j]).source_id_spec() == x;
                        if j < i {
                            assert(before.contains(x));
                            let q = choose|q: int| 0 <= q < before.len() && before[q] == x;
                            assert(ids@[q] == x);
                        } else {
                            assert(ids@[ids@.len() - 1] == x);
                        }
                    }
                }
            }
        } else {
            proof {
                crate::functional::SourceId::lemma_view_injective(before.last(), id);
                assert forall|x: SourceId| ids@.contains(x) <==> exists|j: int| 0 <= j < i + 1 && (#[trigger] sources@[j]).source_id_spec() == x by {
                    if exists|j: int| 0 <= j < i + 1 && (#[trigger] sources@[j]).source_id_spec() == x {
                        let j = choose|j: int| 0 <= j < i + 1 && (#[trigger] sources@[j]).source_id_spec() == x;
                        if j == i {
                            assert(ids@[ids@.len() - 1] == x);
                        }
                    }
                }
            }
        }
        i = i + 1;
    }
    ids
}


/// Leaving out repeats keeps key order, and keeps only items of `s`.
proof fn lemma_without_repeats_sorted(s: Seq<CanonicalEvidenceSource>)
    requires
        keyed_sorted(s),
    ensures
        keyed_sorted(without_repeats(s)),
        forall|i: int| 0 <= i < without_repeats(s).len() ==> exists|j: int| 0 <= j < s.len() && #[trigger] without_repeats(s)[i] == s[j],
    decreases s.len(),
{
    if s.len() > 0 {
        let front = s.drop_last();
        assert(keyed_sorted(front)) by {
            assert forall|i: int, j: int| 0 <= i < j < front.len() implies !key_before(front[j].source_key(), front[i].source_key()) by {
                assert(front[i] == s[i] && front[j] == s[j]);
            }
        }
        lemma_without_repeats_sorted(front);
        let w = without_repeats(front);
        if !(s.len() >= 2 && same_source(s[s.len() - 2], s[s.len() - 1])) {
            let out = w.push(s.last());
            assert forall|i: int| 0 <= i < out.len() implies exists|j: int| 0 <= j < s.len() && #[trigger] out[i] == s[j] by {
                if i < w.len() {
                    let j = choose|j: int| 0 <= j < front.len() && #[trigger] w[i] == front[j];
                    assert(out[i] == s[j]);
                } else {
                    assert(out[i] == s[s.len() - 1]);
                }
            }
            assert forall|i: int, j: int| 0 <= i < j < out.len() implies !key_before(out[j].source_key(), out[i].source_key()) by {
                if j < w.len() {
                    assert(out[i] == w[i] && out[j] == w[j]);
                } else {
                    let q = choose|q: int| 0 <= q < front.len() && #[trigger] w[i] == front[q];
                    assert(out[i] == s[q]);
                    assert(out[j] == s[s.len() - 1]);
                }
            }
        } else {
            assert forall|i: int| 0 <= i < w.len() implies exists|j: int| 0 <= j < s.len() && #[trigger] w[i] == s[j] by {
                let j = choose|j: int| 0 <= j < front.len() && #[trigger] w[i] == front[j];
                assert(w[i] == s[j]);
            }
        }
    }
}

/// An independent copy of `source`.
fn copy_source(source: &CanonicalEvidenceSource) -> (copy: CanonicalEvidenceSource)
    ensures
        same_source(copy, *source),
{
    let groups = source.group_ids();
    let mut copied: Vec<GroupId> = Vec::new();
    let mut i: usize = 0;
    while i < groups.len()
        invariant
            i <= groups.len(),
            copied@ == groups@.take(i as int),
        decreases groups.len() - i,
    {
        copied.push(groups[i]);
        i = i + 1;
        proof {
            assert(copied@ =~= groups@.take(i as int));
        }
    }
    proof {
        assert(groups@.take(groups.len() as int) =~= groups@);
    }
    CanonicalEvidenceSource::new(*source.source_id(), copied, *source.semantic_role())
}

/// `copies` holds, in order, a source agreeing with the source of each
/// relation of `relations`.
pub open spec fn copies_of(copies: Seq<CanonicalEvidenceSource>, relations: Seq<ConflictWitnessRelationEvidence>) -> bool {
    &&& copies.len() == relations.len()
    &&& forall|j: int| 0 <= j < copies.len() ==> same_source(#[trigger] copies[j], relations[j].source_spec())
}

/// What a conflict witness is built from; measurements are binary64 bits.
pub struct ConflictWitnessEvidenceParts {
    pub relations: Vec<ConflictWitnessRelationEvidence>,
    pub sources: Vec<CanonicalEvidenceSource>,
    pub canonical_residual_bits: u64,
    pub separation_margin_bits: u64,
    pub residual_limit_bits: u64,
    pub separation_limit_bits: u64,
    pub provenance_verified: bool,
    pub backend_invoked: bool,
}

/// A verified affine combination of canonical relations proving a conflict,
/// with its relations and sources in canonical source order. Its
/// measurements are held as binary64 bits.
#[derive(Debug)]
pub struct ConflictWitnessEvidence {
    relations: Vec<ConflictWitnessRelationEvidence>,
    sources: Vec<CanonicalEvidenceSource>,
    source_ids: Vec<SourceId>,
    canonical_residual_bits: u64,
    separation_margin_bits: u64,
    residual_limit_bits: u64,
    separation_limit_bits: u64,
    provenance_verified: bool,
    backend_invoked: bool,
}

impl ConflictWitnessEvidence {
    /// The recorded relations.
    pub closed spec fn relations_spec(self) -> Seq<ConflictWitnessRelationEvidence> {
        self.relations@
    }

    /// The recorded sources.
    pub closed spec fn sources_spec(self) -> Seq<CanonicalEvidenceSource> {
        self.sources@
    }

    /// The recorded distinct source identities.
    pub closed spec fn source_ids_spec(self) -> Seq<SourceId> {
        self.source_ids@
    }

    /// The recorded measurement bits: residual, margin, residual limit and
    /// separation limit.
    pub closed spec fn measurement_bits_spec(self) -> (u64, u64, u64, u64) {
        (self.canonical_residual_bits, self.separation_margin_bits, self.residual_limit_bits, self.separation_limit_bits)
    }

    /// The recorded provenance and backend flags.
    pub closed spec fn flags_spec(self) -> (bool, bool) {
        (self.provenance_verified, self.backend_invoked)
    }

    /// The witness of `parts`: relations in stable source order, sources in
    /// stable source order with adjacent repeats left out, and the distinct
    /// source identities in increasing order.
    pub fn new_with_sources(parts: ConflictWitnessEvidenceParts) -> (evidence: Self)
        ensures
            keyed_sorted(evidence.relations_spec()),
            forall|key: (u64, u64)| #[trigger] with_key(evidence.relations_spec(), key) == with_key(parts.relations@, key),
            exists|s: Seq<CanonicalEvidenceSource>|
                keyed_sorted(s) && (forall|key: (u64, u64)| #[trigger] with_key(s, key) == with_key(parts.sources@, key))
                    && evidence.sources_spec() == without_repeats(s),
            increasing_ids(evidence.source_ids_spec()),
            forall|id: SourceId|
                evidence.source_ids_spec().contains(id) <==> exists|i: int|
                    0 <= i < evidence.sources_spec().len() && (#[trigger] evidence.sources_spec()[i]).source_id_spec() == id,
            evidence.measurement_bits_spec() == (parts.canonical_residual_bits, parts.separation_margin_bits, parts.residual_limit_bits, parts.separation_limit_bits),
            evidence.flags_spec() == (parts.provenance_verified, parts.backend_invoked),
    {
        let ConflictWitnessEvidenceParts {
            relations,
            sources,
            canonical_residual_bits,
            separation_margin_bits,
            residual_limit_bits,
            separation_limit_bits,
            provenance_verified,
            backend_invoked,
        } = parts;
        let relations = stable_sort_by_key(relations);
        let sorted_sources = stable_sort_by_key(sources);
        proof {
            lemma_without_repeats_sorted(sorted_sources@);
        }
        let ghost sorted_view = sorted_sources@;
        let sources = drop_repeats(sorted_sources);
        let source_ids = distinct_source_ids(&sources);
        let evidence = Self {
            relations,
            sources,
            source_ids,
            canonical_residual_bits,
            separation_margin_bits,
            residual_limit_bits,
            separation_limit_bits,
            provenance_verified,
            backend_invoked,
        };
        proof {
            assert(keyed_sorted(sorted_view) && (forall|key: (u64, u64)| #[trigger] with_key(sorted_view, key) == with_key(parts.sources@, key))
                && evidence.sources_spec() == without_repeats(sorted_view));
        }
        evidence
    }

    /// The witness of `relations`, whose sources are copies of the
    /// relations' own.
    pub fn new(
        relations: Vec<ConflictWitnessRelationEvidence>,
        canonical_residual_bits: u64,
        separation_margin_bits: u64,
        residual_limit_bits: u64,
        separation_limit_bits: u64,
        provenance_verified: bool,
        backend_invoked: bool,
    ) -> (evidence: Self)
        ensures
            keyed_sorted(evidence.relations_spec()),
            forall|key: (u64, u64)| #[trigger] with_key(evidence.relations_spec(), key) == with_key(relations@, key),
            exists|copies: Seq<CanonicalEvidenceSource>, s: Seq<CanonicalEvidenceSource>|
                copies_of(copies, relations@) && keyed_sorted(s) && (forall|key: (u64, u64)| #[trigger] with_key(s, key) == with_key(copies, key))
                    && evidence.sources_spec() == without_repeats(s),
            increasing_ids(evidence.source_ids_spec()),
            forall|id: SourceId|
                evidence.source_ids_spec().contains(id) <==> exists|i: int|
                    0 <= i < evidence.sources_spec().len() && (#[trigger] evidence.sources_spec()[i]).source_id_spec() == id,
            evidence.measurement_bits_spec() == (canonical_residual_bits, separation_margin_bits, residual_limit_bits, separation_limit_bits),
            evidence.flags_spec() == (provenance_verified, backend_invoked),
    {
        let mut sources: Vec<CanonicalEvidenceSource> = Vec::new();
        let mut i: usize = 0;
        while i < relations.len()
            invariant
                i <= relations.len(),
                sources.len() == i,
                forall|j: int| 0 <= j < i ==> same_source(#[trigger] sources@[j], relations@[j].source_spec()),
            decreases relations.len() - i,
        {
            let copy = copy_source(relations[i].source());
            sources.push(copy);
            i = i + 1;
        }
        let ghost copies = sources@;
        proof {
            assert(copies_of(copies, relations@));
        }
        let evidence = Self::new_with_sources(ConflictWitnessEvidenceParts {
            relations,
            sources,
            canonical_residual_bits,
            separation_margin_bits,
            residual_limit_bits,
            separation_limit_bits,
            provenance_verified,
            backend_invoked,
        });
        evidence
    }

    /// Returns the original canonical relations and their proof multipliers.
    pub fn relations(&self) -> (relations: &[ConflictWitnessRelationEvidence])
        ensures
            relations@ == self.relations_spec(),
    {
        self.relations.as_slice()
    }

    /// Returns source provenance in stable source order.
    pub fn sources(&self) -> (sources: &[CanonicalEvidenceSource])
        ensures
            sources@ == self.sources_spec(),
    {
        self.sources.as_slice()
    }

    /// Returns the distinct caller-owned source identities in increasing order.
    pub fn source_ids(&self) -> (ids: &[SourceId])
        ensures
            ids@ == self.source_ids_spec(),
    {
        self.source_ids.as_slice()
    }

    /// Returns the bits of the maximum residual of the recomputed canonical
    /// combination.
    pub fn canonical_residual_bits(&self) -> (bits: u64)
        ensures
            bits == self.measurement_bits_spec().0,
    {
        self.canonical_residual_bits
    }

    /// Returns the bits of the strict separation proved by the recomputed
    /// targets.
    pub fn separation_margin_bits(&self) -> (bits: u64)
        ensures
            bits == self.measurement_bits_spec().1,
    {
        self.separation_margin_bits
    }

    /// Returns the bits of the canonical-combination residual limit.
    pub fn residual_limit_bits(&self) -> (bits: u64)
        ensures
            bits == self.measurement_bits_spec().2,
    {
        self.residual_limit_bits
    }

    /// Returns the bits of the minimum accepted strict-separation margin.
    pub fn separation_limit_bits(&self) -> (bits: u64)
        ensures
            bits == self.measurement_bits_spec().3,
    {
        self.separation_limit_bits
    }

    /// Reports whether every witness relation was recovered to original
    /// provenance.
    pub fn provenance_verified(&self) -> (verified: bool)
        ensures
            verified == self.flags_spec().0,
    {
        self.provenance_verified
    }

    /// Reports whether a backend supplied the candidate proof coefficients.
    pub fn backend_invoked(&self) -> (invoked: bool)
        ensures
            invoked == self.flags_spec().1,
    {
        self.backend_invoked
    }
}


/// The identities of the sources of `relations`, in order.
pub open spec fn relation_source_ids(relations: Seq<ConflictWitnessRelationEvidence>) -> Seq<SourceId> {
    relations.map_values(|r: ConflictWitnessRelationEvidence| r.source_spec().source_id_spec())
}

/// What a relation-graph conflict is built from; targets and measurements
/// are binary64 bits.
pub struct RelationGraphConflictEvidenceParts {
    pub proof_relations: Vec<ConflictWitnessRelationEvidence>,
    pub group_ids: Vec<GroupId>,
    pub semantic_role: SemanticRolePath,
    pub first_absolute_source: SourceId,
    pub first_absolute_target_bits: u64,
    pub second_absolute_source: SourceId,
    pub second_absolute_target_bits: u64,
    pub canonical_residual_bits: u64,
    pub separation_margin_bits: u64,
    pub provenance_verified: bool,
}

/// A cycle of hard value relations joining two incompatible absolute
/// targets, with the relations that prove it.
#[derive(Debug)]
pub struct RelationGraphConflictEvidence {
    proof_relations: Vec<ConflictWitnessRelationEvidence>,
    source_ids: Vec<SourceId>,
    group_ids: Vec<GroupId>,
    semantic_role: SemanticRolePath,
    first_absolute_source: SourceId,
    first_absolute_target_bits: u64,
    second_absolute_source: SourceId,
    second_absolute_target_bits: u64,
    canonical_residual_bits: u64,
    separation_margin_bits: u64,
    provenance_verified: bool,
    backend_invoked: bool,
}

impl RelationGraphConflictEvidence {
    /// The recorded proof relations.
    pub closed spec fn proof_relations_spec(self) -> Seq<ConflictWitnessRelationEvidence> {
        self.proof_relations@
    }

    /// The recorded source identities.
    pub closed spec fn source_ids_spec(self) -> Seq<SourceId> {
        self.source_ids@
    }

    /// The recorded groups.
    pub closed spec fn group_ids_spec(self) -> Seq<GroupId> {
        self.group_ids@
    }

    /// The recorded closing role.
    pub closed spec fn semantic_role_spec(self) -> SemanticRolePath {
        self.semantic_role
    }

    /// The recorded absolute sources and target bits: first source, first
    /// target, second source, second target.
    pub closed spec fn absolutes_spec(self) -> (SourceId, u64, SourceId, u64) {
        (self.first_absolute_source, self.first_absolute_target_bits, self.second_absolute_source, self.second_absolute_target_bits)
    }

    /// The recorded residual and margin bits.
    pub closed spec fn measurement_bits_spec(self) -> (u64, u64) {
        (self.canonical_residual_bits, self.separation_margin_bits)
    }

    /// The recorded provenance and backend flags.
    pub closed spec fn flags_spec(self) -> (bool, bool) {
        (self.provenance_verified, self.backend_invoked)
    }

    /// The conflict of `parts`: its source identities are those of the proof
    /// relations, in order, and no backend was invoked.
    pub fn new(parts: RelationGraphConflictEvidenceParts) -> (evidence: Self)
        ensures
            evidence.proof_relations_spec() == parts.proof_relations@,
            evidence.source_ids_spec() == relation_source_ids(parts.proof_relations@),
            evidence.group_ids_spec() == parts.group_ids@,
            evidence.semantic_role_spec() == parts.semantic_role,
            evidence.absolutes_spec() == (parts.first_absolute_source, parts.first_absolute_target_bits, parts.second_absolute_source, parts.second_absolute_target_bits),
            evidence.measurement_bits_spec() == (parts.canonical_residual_bits, parts.separation_margin_bits),
            evidence.flags_spec() == (parts.provenance_verified, false),
    {
        let RelationGraphConflictEvidenceParts {
            proof_relations,
            group_ids,
            semantic_role,
            first_absolute_source,
            first_absolute_target_bits,
            second_absolute_source,
            second_absolute_target_bits,
            canonical_residual_bits,
            separation_margin_bits,
            provenance_verified,
        } = parts;
        let mut source_ids: Vec<SourceId> = Vec::new();
        let mut i: usize = 0;
        while i < proof_relations.len()
            invariant
                i <= proof_relations.len(),
                source_ids@ == relation_source_ids(proof_relations@).take(i as int),
            decreases proof_relations.len() - i,
        {
            source_ids.push(*proof_relations[i].source().source_id());
            i = i + 1;
            proof {
                assert(source_ids@ =~= relation_source_ids(proof_relations@).take(i as int));
            }
        }
        proof {
            assert(relation_source_ids(proof_relations@).take(proof_relations.len() as int) =~= relation_source_ids(proof_relations@));
        }
        Self {
            proof_relations,
            source_ids,
            group_ids,
            semantic_role,
            first_absolute_source,
            first_absolute_target_bits,
            second_absolute_source,
            second_absolute_target_bits,
            canonical_residual_bits,
            separation_margin_bits,
            provenance_verified,
            backend_invoked: false,
        }
    }

    /// Returns the relations of the contradictory cycle.
    pub fn proof_relations(&self) -> (relations: &[ConflictWitnessRelationEvidence])
        ensures
            relations@ == self.proof_relations_spec(),
    {
        self.proof_relations.as_slice()
    }

    /// Returns every caller-owned source on the contradictory graph cycle.
    pub fn source_ids(&self) -> (ids: &[SourceId])
        ensures
            ids@ == self.source_ids_spec(),
    {
        self.source_ids.as_slice()
    }

    /// Returns every referenced semantic group on the contradictory cycle.
    pub fn group_ids(&self) -> (ids: &[GroupId])
        ensures
            ids@ == self.group_ids_spec(),
    {
        self.group_ids.as_slice()
    }

    /// Returns the semantic role of the relation that closed the cycle.
    pub fn semantic_role(&self) -> (role: &SemanticRolePath)
        ensures
            *role == self.semantic_role_spec(),
    {
        &self.semantic_role
    }

    /// Returns the source of the first incompatible absolute target.
    pub fn first_absolute_source(&self) -> (id: &SourceId)
        ensures
            *id == self.absolutes_spec().0,
    {
        &self.first_absolute_source
    }

    /// Returns the bits of the first incompatible absolute target.
    pub fn first_absolute_target_bits(&self) -> (bits: u64)
        ensures
            bits == self.absolutes_spec().1,
    {
        self.first_absolute_target_bits
    }

    /// Returns the source of the second incompatible absolute target.
    pub fn second_absolute_source(&self) -> (id: &SourceId)
        ensures
            *id == self.absolutes_spec().2,
    {
        &self.second_absolute_source
    }

    /// Returns the bits of the second incompatible absolute target.
    pub fn second_absolute_target_bits(&self) -> (bits: u64)
        ensures
            bits == self.absolutes_spec().3,
    {
        self.second_absolute_target_bits
    }

    /// Returns the bits of the recomputed canonical residual.
    pub fn canonical_residual_bits(&self) -> (bits: u64)
        ensures
            bits == self.measurement_bits_spec().0,
    {
        self.canonical_residual_bits
    }

    /// Returns the bits of the proved separation margin.
    pub fn separation_margin_bits(&self) -> (bits: u64)
        ensures
            bits == self.measurement_bits_spec().1,
    {
        self.separation_margin_bits
    }

    /// Reports whether every relation was recovered to original provenance.
    pub fn provenance_verified(&self) -> (verified: bool)
        ensures
            verified == self.flags_spec().0,
    {
        self.provenance_verified
    }

    /// Reports whether a backend was invoked before proving the contradiction.
    pub fn backend_invoked(&self) -> (invoked: bool)
        ensures
            invoked == self.flags_spec().1,
    {
        self.backend_invoked
    }
}

} // verus!
