//! Deterministic row/column layouts of the five modelling branches.
//!
//! This module describes indices only; numerical assembly lives elsewhere.
use crate::error::Error;
use crate::parameters::{model_name, solver_name, Axis, InternalParameters, ModelType};
use crate::text::{bool_text, decimal, push_bool, push_decimal};
use vstd::prelude::*;

verus! {

/// Half-open row/column interval.
#[derive(Clone, Copy, Debug, Default, Eq, Hash, PartialEq, Structural)]
pub struct IndexRange {
    start: usize,
    end: usize,
}

impl IndexRange {
    /// The first index of the interval.
    pub closed spec fn start_spec(self) -> usize {
        self.start
    }

    /// One past the last index of the interval.
    pub closed spec fn end_spec(self) -> usize {
        self.end
    }

    /// The interval `start..end`.
    pub fn new(start: usize, end: usize) -> (range: Self)
        ensures
            range.start() == start,
            range.end() == end,
    {
        Self { start, end }
    }

    /// The first index of the interval.
    #[verifier::when_used_as_spec(start_spec)]
    pub fn start(self) -> (start: usize)
        ensures
            start == self.start_spec(),
    {
        self.start
    }

    /// One past the last index of the interval.
    #[verifier::when_used_as_spec(end_spec)]
    pub fn end(self) -> (end: usize)
        ensures
            end == self.end_spec(),
    {
        self.end
    }

    /// The number of indices in the interval.
    pub fn len(self) -> (len: usize)
        requires
            self.start() <= self.end(),
        ensures
            len == self.end() - self.start(),
    {
        self.end - self.start
    }

    /// Whether the interval holds no index.
    pub fn is_empty(self) -> (empty: bool)
        ensures
            empty == (self.start() == self.end()),
    {
        self.start == self.end
    }

    /// Whether `index` lies in the interval.
    pub fn contains(self, index: usize) -> (contained: bool)
        ensures
            contained == (self.start() <= index && index < self.end()),
    {
        self.start <= index && index < self.end
    }

    /// The interval's text, `start..end` in decimal.
    pub fn text(self) -> (text: String)
        ensures
            text@ == range_text(self),
    {
        let mut text = String::new();
        push_range(&mut text, self);
        proof {
            assert(text@ =~= range_text(self));
        }
        text
    }
}

/// Raw category counts supplied to a layout, including categories a model
/// deliberately ignores.
#[derive(Clone, Copy, Debug, Default, Eq, Hash, PartialEq, Structural)]
pub struct SourceConstraintCounts {
    pub inequalities: usize,
    pub interfaces: usize,
    pub planars: usize,
    pub tangents: usize,
}

/// Stable reference to an input point used by a difference degree of freedom.
#[derive(Clone, Copy, Debug, Eq, Hash, PartialEq, Structural)]
pub enum LayoutPointRef {
    Interface(usize),
    Inequality(usize),
}

/// The three source-level meanings of difference rows, with the two
/// inequality orientations kept distinct.
#[derive(Clone, Copy, Debug, Eq, Hash, PartialEq, Structural)]
pub enum DifferenceKind {
    SameLevelInterface,
    SequencedInterfaces,
    InequalityBelowUpperInterface,
    InequalityAboveLowerInterface,
}

/// One matrix row/column label.
#[derive(Clone, Copy, Debug, Eq, Hash, PartialEq, Structural)]
pub enum LayoutDof {
    InequalityValue { index: usize },
    InterfaceValue { index: usize },
    Difference { kind: DifferenceKind, positive: LayoutPointRef, negative: LayoutPointRef },
    PlanarDerivative { index: usize, axis: Axis },
    Tangent { index: usize },
    PolynomialTerm { index: usize },
}

/// Solver meaning of a row/column label.
#[derive(Clone, Copy, Debug, Eq, Hash, PartialEq, Structural)]
pub enum LayoutRole {
    Equality,
    Inequality,
    Bounded,
    Polynomial,
}

/// Named contiguous section in one model's fixed row/column order.
#[derive(Clone, Copy, Debug, Eq, Hash, PartialEq, Structural)]
pub enum LayoutSectionKind {
    InequalityValues,
    InterfaceValues,
    SequencedInterfaceDifferences,
    SequencedInequalityDifferences,
    SameLevelDifferences,
    PlanarDerivatives,
    Tangents,
    Polynomial,
}

/// One named contiguous matrix section.
#[derive(Clone, Copy, Debug, Eq, Hash, PartialEq, Structural)]
pub struct LayoutSection {
    kind: LayoutSectionKind,
    range: IndexRange,
}

impl LayoutSection {
    /// The section's kind.
    pub closed spec fn kind_spec(self) -> LayoutSectionKind {
        self.kind
    }

    /// The section's rows.
    pub closed spec fn range_spec(self) -> IndexRange {
        self.range
    }

    /// The section's kind.
    #[verifier::when_used_as_spec(kind_spec)]
    pub fn kind(self) -> (kind: LayoutSectionKind)
        ensures
            kind == self.kind_spec(),
    {
        self.kind
    }

    /// The section's rows.
    #[verifier::when_used_as_spec(range_spec)]
    pub fn range(self) -> (range: IndexRange)
        ensures
            range == self.range_spec(),
    {
        self.range
    }
}

/// The section of kind `kind` over rows `start..end`.
pub fn section(kind: LayoutSectionKind, start: usize, end: usize) -> (section: LayoutSection)
    ensures
        section.kind() == kind,
        section.range().start() == start,
        section.range().end() == end,
{
    LayoutSection { kind, range: IndexRange::new(start, end) }
}

/// Equality, inequality, bounded, and polynomial portions of a layout.
#[derive(Clone, Copy, Debug, Default, Eq, Hash, PartialEq, Structural)]
pub struct LayoutPartitions {
    equality: IndexRange,
    inequality: IndexRange,
    bounded: IndexRange,
    polynomial: IndexRange,
}

impl LayoutPartitions {
    /// The equality rows.
    pub closed spec fn equality_spec(self) -> IndexRange {
        self.equality
    }

    /// The inequality rows.
    pub closed spec fn inequality_spec(self) -> IndexRange {
        self.inequality
    }

    /// The bounded rows.
    pub closed spec fn bounded_spec(self) -> IndexRange {
        self.bounded
    }

    /// The polynomial rows.
    pub closed spec fn polynomial_spec(self) -> IndexRange {
        self.polynomial
    }

    /// The four portions as given.
    pub fn new(
        equality: IndexRange,
        inequality: IndexRange,
        bounded: IndexRange,
        polynomial: IndexRange,
    ) -> (partitions: Self)
        ensures
            partitions.equality() == equality,
            partitions.inequality() == inequality,
            partitions.bounded() == bounded,
            partitions.polynomial() == polynomial,
    {
        Self { equality, inequality, bounded, polynomial }
    }

    /// The equality rows.
    #[verifier::when_used_as_spec(equality_spec)]
    pub fn equality(self) -> (range: IndexRange)
        ensures
            range == self.equality_spec(),
    {
        self.equality
    }

    /// The inequality rows.
    #[verifier::when_used_as_spec(inequality_spec)]
    pub fn inequality(self) -> (range: IndexRange)
        ensures
            range == self.inequality_spec(),
    {
        self.inequality
    }

    /// The bounded rows.
    #[verifier::when_used_as_spec(bounded_spec)]
    pub fn bounded(self) -> (range: IndexRange)
        ensures
            range == self.bounded_spec(),
    {
        self.bounded
    }

    /// The polynomial rows.
    #[verifier::when_used_as_spec(polynomial_spec)]
    pub fn polynomial(self) -> (range: IndexRange)
        ensures
            range == self.polynomial_spec(),
    {
        self.polynomial
    }
}

/// `range` is ordered and lies within the first `size` rows.
pub open spec fn range_within(range: IndexRange, size: nat) -> bool {
    range.start() <= range.end() <= size
}

/// The value of the `i`-th position of `m`, `m + 1`, `m + 2` in a product of
/// three consecutive integers.
pub open spec fn consecutive_product(m: int) -> int {
    m * (m + 1) * (m + 2)
}

/// Number of terms of a complete polynomial of degree `order` in three
/// variables, or an interpolation-matrix failure when the count is negative
/// or not representable.
pub fn declared_polynomial_term_count(order: i32) -> (count: Result<usize, Error>)
    ensures
        count is Ok <==> order + 1 >= -2 && consecutive_product(order + 1) <= i64::MAX
            && consecutive_product(order + 1) / 6 <= usize::MAX,
        count matches Ok(terms) ==> terms == consecutive_product(order + 1) / 6,
        count matches Err(error) ==> error == Error::InterpolationMatrixFailure,
{
    let m: i64 = order as i64 + 1;
    let ghost mi: int = m as int;
    proof {
        assert(consecutive_product(mi) == mi * (mi + 1) * (mi + 2));
        if mi >= -2 {
            assert(mi * (mi + 1) >= 0) by (nonlinear_arith)
                requires
                    mi >= -2,
            ;
            assert(mi * (mi + 1) * (mi + 2) >= 0) by (nonlinear_arith)
                requires
                    mi >= -2,
                    mi * (mi + 1) >= 0,
            ;
        } else {
            assert(mi * (mi + 1) > 0) by (nonlinear_arith)
                requires
                    mi < -2,
            ;
            assert(mi * (mi + 1) * (mi + 2) < 0) by (nonlinear_arith)
                requires
                    mi < -2,
                    mi * (mi + 1) > 0,
            ;
        }
        assert(0 <= mi * (mi + 1) <= i64::MAX) by (nonlinear_arith)
            requires
                -0x8000_0000 < mi <= 0x8000_0000,
        ;
        if mi > 0 {
            assert(mi * (mi + 1) <= mi * (mi + 1) * (mi + 2)) by (nonlinear_arith)
                requires
                    mi > 0,
            ;
        }
    }
    let pair = match m.checked_mul(m + 1) {
        Some(value) => value,
        None => {
            return Err(Error::InterpolationMatrixFailure);
        },
    };
    let product = match pair.checked_mul(m + 2) {
        Some(value) => value,
        None => {
            return Err(Error::InterpolationMatrixFailure);
        },
    };
    if product < 0 {
        return Err(Error::InterpolationMatrixFailure);
    }
    let terms: u64 = (product as u64) / 6;
    if terms > usize::MAX as u64 {
        return Err(Error::InterpolationMatrixFailure);
    }
    Ok(terms as usize)
}

/// The derivative axis at position `offset` of a planar constraint's three
/// rows.
pub open spec fn axis_at(offset: int) -> Axis {
    if offset == 0 {
        Axis::X
    } else if offset == 1 {
        Axis::Y
    } else {
        Axis::Z
    }
}

/// Three derivative rows, `x`, `y` and `z`, for each of `count` planar
/// constraints.
pub fn planar_dofs(count: usize) -> (dofs: Vec<LayoutDof>)
    requires
        count * 3 <= usize::MAX,
    ensures
        dofs.len() == count * 3,
        forall|i: int|
            0 <= i < dofs.len() ==> #[trigger] dofs[i] == (LayoutDof::PlanarDerivative {
                index: (i / 3) as usize,
                axis: axis_at(i % 3),
            }),
{
    let mut dofs: Vec<LayoutDof> = Vec::with_capacity(count * 3);
    let mut index: usize = 0;
    while index < count
        invariant
            index <= count,
            count * 3 <= usize::MAX,
            dofs.len() == index * 3,
            forall|i: int|
                0 <= i < dofs.len() ==> #[trigger] dofs[i] == (LayoutDof::PlanarDerivative {
                    index: (i / 3) as usize,
                    axis: axis_at(i % 3),
                }),
        decreases count - index,
    {
        let ghost before = dofs@;
        dofs.push(LayoutDof::PlanarDerivative { index, axis: Axis::X });
        dofs.push(LayoutDof::PlanarDerivative { index, axis: Axis::Y });
        dofs.push(LayoutDof::PlanarDerivative { index, axis: Axis::Z });
        proof {
            let base = index * 3;
            assert forall|i: int| 0 <= i < dofs.len() implies #[trigger] dofs[i]
                == LayoutDof::PlanarDerivative { index: (i / 3) as usize, axis: axis_at(i % 3) } by {
                if i < base {
                    assert(dofs[i] == before[i]);
                } else {
                    assert((base + (i - base)) / 3 == index);
                }
            }
        }
        index = index + 1;
    }
    dofs
}

/// One tangent row for each of `count` tangent constraints.
pub fn tangent_dofs(count: usize) -> (dofs: Vec<LayoutDof>)
    ensures
        dofs.len() == count,
        forall|i: int| 0 <= i < count ==> #[trigger] dofs[i] == (LayoutDof::Tangent { index: i as usize }),
{
    let mut dofs: Vec<LayoutDof> = Vec::with_capacity(count);
    let mut index: usize = 0;
    while index < count
        invariant
            index <= count,
            dofs.len() == index,
            forall|i: int| 0 <= i < index ==> #[trigger] dofs[i] == (LayoutDof::Tangent { index: i as usize }),
        decreases count - index,
    {
        dofs.push(LayoutDof::Tangent { index });
        index = index + 1;
    }
    dofs
}

/// One row for each of `count` polynomial terms.
pub fn polynomial_dofs(count: usize) -> (dofs: Vec<LayoutDof>)
    ensures
        dofs.len() == count,
        forall|i: int|
            0 <= i < count ==> #[trigger] dofs[i] == (LayoutDof::PolynomialTerm { index: i as usize }),
{
    let mut dofs: Vec<LayoutDof> = Vec::with_capacity(count);
    let mut index: usize = 0;
    while index < count
        invariant
            index <= count,
            dofs.len() == index,
            forall|i: int|
                0 <= i < index ==> #[trigger] dofs[i] == (LayoutDof::PolynomialTerm { index: i as usize }),
        decreases count - index,
    {
        dofs.push(LayoutDof::PolynomialTerm { index });
        index = index + 1;
    }
    dofs
}

/// Appends `dofs`, each with role `role`, and records them as one section of
/// kind `kind`.
pub fn append_section(
    all_dofs: &mut Vec<LayoutDof>,
    all_roles: &mut Vec<LayoutRole>,
    sections: &mut Vec<LayoutSection>,
    kind: LayoutSectionKind,
    dofs: Vec<LayoutDof>,
    role: LayoutRole,
)
    requires
        old(all_dofs)@.len() + dofs.len() <= usize::MAX,
    ensures
        final(all_dofs)@ == old(all_dofs)@ + dofs@,
        final(all_roles)@ == old(all_roles)@ + Seq::new(dofs.len() as nat, |i: int| role),
        final(sections)@.len() == old(sections)@.len() + 1,
        final(sections)@.drop_last() == old(sections)@,
        final(sections)@.last().kind() == kind,
        final(sections)@.last().range().start() == old(all_dofs)@.len(),
        final(sections)@.last().range().end() == final(all_dofs)@.len(),
        final(sections)@.last().range().end() == old(all_dofs)@.len() + dofs.len(),
{
    let start = all_dofs.len();
    let ghost initial_dofs = all_dofs@;
    let ghost initial_roles = all_roles@;
    let mut index: usize = 0;
    while index < dofs.len()
        invariant
            index <= dofs.len(),
            all_dofs@ == initial_dofs + dofs@.take(index as int),
            all_roles@ == initial_roles + Seq::new(index as nat, |i: int| role),
            initial_dofs.len() + dofs.len() <= usize::MAX,
        decreases dofs.len() - index,
    {
        all_dofs.push(dofs[index]);
        all_roles.push(role);
        proof {
            assert(dofs@.take(index + 1) == dofs@.take(index as int).push(dofs@[index as int]));
            assert(Seq::new((index + 1) as nat, |i: int| role) == Seq::new(index as nat, |i: int| role).push(role));
        }
        index = index + 1;
    }
    proof {
        assert(dofs@.take(dofs.len() as int) == dofs@);
    }
    let appended = section(kind, start, all_dofs.len());
    let ghost initial_sections = sections@;
    sections.push(appended);
    proof {
        assert(sections@.drop_last() == initial_sections);
    }
}

/// The first position of `dof` in `dofs`, if it occurs.
pub open spec fn first_index_of(dofs: Seq<LayoutDof>, dof: LayoutDof) -> Option<nat>
    decreases dofs.len(),
{
    if dofs.len() == 0 {
        None
    } else {
        match first_index_of(dofs.drop_last(), dof) {
            Some(index) => Some(index),
            None => if dofs.last() == dof {
                Some((dofs.len() - 1) as nat)
            } else {
                None
            },
        }
    }
}

proof fn lemma_first_index_of(dofs: Seq<LayoutDof>, dof: LayoutDof)
    ensures
        first_index_of(dofs, dof) matches Some(i) ==> i < dofs.len() && dofs[i as int] == dof
            && forall|j: int| 0 <= j < i ==> dofs[j] != dof,
        first_index_of(dofs, dof) is None ==> forall|j: int| 0 <= j < dofs.len() ==> dofs[j] != dof,
    decreases dofs.len(),
{
    if dofs.len() > 0 {
        lemma_first_index_of(dofs.drop_last(), dof);
        assert forall|j: int| 0 <= j < dofs.len() - 1 implies dofs[j] == dofs.drop_last()[j] by {}
    }
}

proof fn lemma_first_index_is(dofs: Seq<LayoutDof>, dof: LayoutDof, position: int)
    requires
        0 <= position < dofs.len(),
        dofs[position] == dof,
        forall|j: int| 0 <= j < position ==> dofs[j] != dof,
    ensures
        first_index_of(dofs, dof) == Some(position as nat),
    decreases dofs.len(),
{
    if position < dofs.len() - 1 {
        lemma_first_index_is(dofs.drop_last(), dof, position);
    } else {
        lemma_first_index_of(dofs.drop_last(), dof);
        assert forall|j: int| 0 <= j < dofs.len() - 1 implies dofs.drop_last()[j] != dof by {
            assert(dofs.drop_last()[j] == dofs[j]);
        }
    }
}

/// The range of the first section of kind `kind`, if any.
pub open spec fn first_section_range(sections: Seq<LayoutSection>, kind: LayoutSectionKind) -> Option<IndexRange>
    decreases sections.len(),
{
    if sections.len() == 0 {
        None
    } else if sections[0].kind() == kind {
        Some(sections[0].range())
    } else {
        first_section_range(sections.drop_first(), kind)
    }
}

/// Complete deterministic row/column description for one model.
#[derive(Debug, PartialEq, Eq)]
pub struct ConstraintLayout {
    model: ModelType,
    source_counts: SourceConstraintCounts,
    internal_parameters: InternalParameters,
    dofs: Vec<LayoutDof>,
    roles: Vec<LayoutRole>,
    sections: Vec<LayoutSection>,
    partitions: LayoutPartitions,
}

/// A consistent layout: one role per row, and every partition and section
/// an ordered interval of rows.
pub open spec fn consistent_layout(
    dofs: Seq<LayoutDof>,
    roles: Seq<LayoutRole>,
    sections: Seq<LayoutSection>,
    partitions: LayoutPartitions,
) -> bool {
    &&& dofs.len() == roles.len()
    &&& range_within(partitions.equality(), dofs.len())
    &&& range_within(partitions.inequality(), dofs.len())
    &&& range_within(partitions.bounded(), dofs.len())
    &&& range_within(partitions.polynomial(), dofs.len())
    &&& forall|i: int| 0 <= i < sections.len() ==> range_within(#[trigger] sections[i].range(), dofs.len())
}

impl ConstraintLayout {
    #[verifier::type_invariant]
    closed spec fn well_formed(self) -> bool {
        consistent_layout(self.dofs@, self.roles@, self.sections@, self.partitions)
    }

    /// The model the layout belongs to.
    pub closed spec fn model_spec(self) -> ModelType {
        self.model
    }

    /// The raw category counts the layout was built from.
    pub closed spec fn source_counts_spec(self) -> SourceConstraintCounts {
        self.source_counts
    }

    /// The resolved parameters the layout was built from.
    pub closed spec fn internal_parameters_spec(self) -> InternalParameters {
        self.internal_parameters
    }

    /// The row labels, in row order.
    pub closed spec fn dofs_spec(self) -> Seq<LayoutDof> {
        self.dofs@
    }

    /// The row roles, in row order.
    pub closed spec fn roles_spec(self) -> Seq<LayoutRole> {
        self.roles@
    }

    /// The named sections, in order.
    pub closed spec fn sections_spec(self) -> Seq<LayoutSection> {
        self.sections@
    }

    /// The four solver portions.
    pub closed spec fn partitions_spec(self) -> LayoutPartitions {
        self.partitions
    }

    /// The layout of the given rows, roles, sections and portions.
    pub fn new(
        model: ModelType,
        source_counts: SourceConstraintCounts,
        internal_parameters: InternalParameters,
        dofs: Vec<LayoutDof>,
        roles: Vec<LayoutRole>,
        sections: Vec<LayoutSection>,
        partitions: LayoutPartitions,
    ) -> (layout: Self)
        requires
            consistent_layout(dofs@, roles@, sections@, partitions),
        ensures
            layout.model_spec() == model,
            layout.source_counts_spec() == source_counts,
            layout.internal_parameters_spec() == internal_parameters,
            layout.dofs_spec() == dofs@,
            layout.roles_spec() == roles@,
            layout.sections_spec() == sections@,
            layout.partitions_spec() == partitions,
    {
        Self { model, source_counts, internal_parameters, dofs, roles, sections, partitions }
    }

    /// Returns the model the layout belongs to.
    pub fn model(&self) -> (model: ModelType)
        ensures
            model == self.model_spec(),
    {
        self.model
    }

    /// Returns the raw category counts the layout was built from.
    pub fn source_counts(&self) -> (counts: SourceConstraintCounts)
        ensures
            counts == self.source_counts_spec(),
    {
        self.source_counts
    }

    /// Returns the resolved parameters the layout was built from.
    pub fn internal_parameters(&self) -> (parameters: &InternalParameters)
        ensures
            *parameters == self.internal_parameters_spec(),
    {
        &self.internal_parameters
    }

    /// Returns the row labels, in row order.
    pub fn dofs(&self) -> (dofs: &[LayoutDof])
        ensures
            dofs@ == self.dofs_spec(),
    {
        self.dofs.as_slice()
    }

    /// Returns the label of row `index`, if there is such a row.
    pub fn dof(&self, index: usize) -> (dof: Option<&LayoutDof>)
        ensures
            match dof {
                Some(d) => index < self.dofs_spec().len() && *d == self.dofs_spec()[index as int],
                None => index >= self.dofs_spec().len(),
            },
    {
        if index < self.dofs.len() {
            Some(&self.dofs[index])
        } else {
            None
        }
    }

    /// Returns the role of row `index`, if there is such a row.
    pub fn role(&self, index: usize) -> (role: Option<LayoutRole>)
        ensures
            match role {
                Some(r) => index < self.roles_spec().len() && r == self.roles_spec()[index as int],
                None => index >= self.roles_spec().len(),
            },
    {
        if index < self.roles.len() {
            Some(self.roles[index])
        } else {
            None
        }
    }

    /// Returns the first row labelled `dof`, if any.
    pub fn index_of(&self, dof: &LayoutDof) -> (index: Option<usize>)
        ensures
            match index {
                Some(i) => first_index_of(self.dofs_spec(), *dof) == Some(i as nat),
                None => first_index_of(self.dofs_spec(), *dof) is None,
            },
    {
        proof {
            lemma_first_index_of(self.dofs@, *dof);
        }
        let mut position: usize = 0;
        while position < self.dofs.len()
            invariant
                position <= self.dofs.len(),
                forall|j: int| 0 <= j < position ==> self.dofs@[j] != *dof,
            decreases self.dofs.len() - position,
        {
            if self.dofs[position] == *dof {
                proof {
                    lemma_first_index_is(self.dofs@, *dof, position as int);
                }
                return Some(position);
            }
            position = position + 1;
        }
        None
    }

    /// Returns the named sections, in order.
    pub fn sections(&self) -> (sections: &[LayoutSection])
        ensures
            sections@ == self.sections_spec(),
    {
        self.sections.as_slice()
    }

    /// Returns the rows of the first section of kind `kind`, if any.
    pub fn section(&self, kind: LayoutSectionKind) -> (range: Option<IndexRange>)
        ensures
            range == first_section_range(self.sections_spec(), kind),
    {
        let mut position: usize = 0;
        proof {
            assert(self.sections@.skip(0) == self.sections@);
        }
        while position < self.sections.len()
            invariant
                position <= self.sections.len(),
                first_section_range(self.sections@, kind) == first_section_range(
                    self.sections@.skip(position as int),
                    kind,
                ),
            decreases self.sections.len() - position,
        {
            let candidate = self.sections[position];
            proof {
                assert(self.sections@.skip(position as int)[0] == candidate);
                assert(self.sections@.skip(position as int).drop_first() == self.sections@.skip(
                    position + 1,
                ));
            }
            if candidate.kind == kind {
                return Some(candidate.range);
            }
            position = position + 1;
        }
        None
    }

    /// Returns the four solver portions.
    pub fn partitions(&self) -> (partitions: LayoutPartitions)
        ensures
            partitions == self.partitions_spec(),
    {
        self.partitions
    }

    /// Returns the number of rows (and columns).
    pub fn matrix_size(&self) -> (size: usize)
        ensures
            size == self.dofs_spec().len(),
    {
        self.dofs.len()
    }

    /// Returns the number of polynomial rows.
    pub fn polynomial_dof_count(&self) -> (count: usize)
        ensures
            count == self.partitions_spec().polynomial().end() - self.partitions_spec().polynomial().start(),
            count <= self.dofs_spec().len(),
    {
        proof {
            use_type_invariant(self);
        }
        self.partitions.polynomial.len()
    }

    /// Returns the number of constraint rows: every row that is not a
    /// polynomial row.
    pub fn constraint_dof_count(&self) -> (count: usize)
        ensures
            count + (self.partitions_spec().polynomial().end() - self.partitions_spec().polynomial().start())
                == self.dofs_spec().len(),
    {
        proof {
            use_type_invariant(self);
        }
        self.matrix_size() - self.polynomial_dof_count()
    }
}

impl Clone for ConstraintLayout {
    fn clone(&self) -> (copy: Self)
        ensures
            copy.model_spec() == self.model_spec(),
            copy.source_counts_spec() == self.source_counts_spec(),
            copy.internal_parameters_spec() == self.internal_parameters_spec(),
            copy.dofs_spec() == self.dofs_spec(),
            copy.roles_spec() == self.roles_spec(),
            copy.sections_spec() == self.sections_spec(),
            copy.partitions_spec() == self.partitions_spec(),
    {
        proof {
            use_type_invariant(self);
        }
        let dofs = self.dofs.clone();
        let roles = self.roles.clone();
        let sections = self.sections.clone();
        proof {
            assert(dofs@ =~= self.dofs@);
            assert(roles@ =~= self.roles@);
            assert(sections@ =~= self.sections@);
        }
        ConstraintLayout {
            model: self.model,
            source_counts: self.source_counts,
            internal_parameters: self.internal_parameters,
            dofs,
            roles,
            sections,
            partitions: self.partitions,
        }
    }
}

/// Every listed row label is found again by its first occurrence: looking up
/// the label of row `index` yields a row no later than `index` with the same
/// label.
pub proof fn lemma_index_of_listed_dof(layout: ConstraintLayout, index: int)
    requires
        0 <= index < layout.dofs_spec().len(),
    ensures
        first_index_of(layout.dofs_spec(), layout.dofs_spec()[index]) matches Some(i) && i <= index
            && layout.dofs_spec()[i as int] == layout.dofs_spec()[index],
{
    lemma_first_index_of(layout.dofs_spec(), layout.dofs_spec()[index]);
}

/// The snapshot name of a role.
pub open spec fn role_name(role: LayoutRole) -> Seq<char> {
    match role {
        LayoutRole::Equality => "equality"@,
        LayoutRole::Inequality => "inequality"@,
        LayoutRole::Bounded => "bounded"@,
        LayoutRole::Polynomial => "polynomial"@,
    }
}

/// The snapshot name of a section kind.
pub open spec fn section_kind_name(kind: LayoutSectionKind) -> Seq<char> {
    match kind {
        LayoutSectionKind::InequalityValues => "inequality_values"@,
        LayoutSectionKind::InterfaceValues => "interface_values"@,
        LayoutSectionKind::SequencedInterfaceDifferences => "sequenced_interface_differences"@,
        LayoutSectionKind::SequencedInequalityDifferences => "sequenced_inequality_differences"@,
        LayoutSectionKind::SameLevelDifferences => "same_level_differences"@,
        LayoutSectionKind::PlanarDerivatives => "planar_derivatives"@,
        LayoutSectionKind::Tangents => "tangents"@,
        LayoutSectionKind::Polynomial => "polynomial"@,
    }
}

/// The snapshot name of a difference kind.
pub open spec fn difference_kind_name(kind: DifferenceKind) -> Seq<char> {
    match kind {
        DifferenceKind::SameLevelInterface => "same_level"@,
        DifferenceKind::SequencedInterfaces => "sequenced_interfaces"@,
        DifferenceKind::InequalityBelowUpperInterface => "upper_minus_inequality"@,
        DifferenceKind::InequalityAboveLowerInterface => "inequality_minus_lower"@,
    }
}

/// The snapshot name of an axis.
pub open spec fn axis_label(axis: Axis) -> Seq<char> {
    match axis {
        Axis::X => "x"@,
        Axis::Y => "y"@,
        Axis::Z => "z"@,
    }
}

/// The text `start..end` of a range.
pub open spec fn range_text(range: IndexRange) -> Seq<char> {
    decimal(range.start() as nat) + ".."@ + decimal(range.end() as nat)
}

/// The text of a point reference.
pub open spec fn point_ref_text(point: LayoutPointRef) -> Seq<char> {
    match point {
        LayoutPointRef::Interface(index) => "interface["@ + decimal(index as nat) + "]"@,
        LayoutPointRef::Inequality(index) => "inequality["@ + decimal(index as nat) + "]"@,
    }
}

/// The text of a row label.
pub open spec fn dof_text(dof: LayoutDof) -> Seq<char> {
    match dof {
        LayoutDof::InequalityValue { index } => "inequality["@ + decimal(index as nat) + "]"@,
        LayoutDof::InterfaceValue { index } => "interface["@ + decimal(index as nat) + "]"@,
        LayoutDof::Difference { kind, positive, negative } => "difference."@ + difference_kind_name(kind)
            + "("@ + point_ref_text(positive) + "-"@ + point_ref_text(negative) + ")"@,
        LayoutDof::PlanarDerivative { index, axis } => "planar["@ + decimal(index as nat) + "].d"@
            + axis_label(axis),
        LayoutDof::Tangent { index } => "tangent["@ + decimal(index as nat) + "]"@,
        LayoutDof::PolynomialTerm { index } => "polynomial["@ + decimal(index as nat) + "]"@,
    }
}

/// The four header lines of a layout snapshot.
pub open spec fn snapshot_header(
    model: ModelType,
    counts: SourceConstraintCounts,
    internal: InternalParameters,
    size: nat,
    partitions: LayoutPartitions,
) -> Seq<char> {
    "model="@ + model_name(model) + " solver="@ + solver_name(internal.problem_type) + " modified="@
        + bool_text(internal.modified_basis) + " restricted="@ + bool_text(internal.restricted_range)
        + "\n"@ + "source inequality="@ + decimal(counts.inequalities as nat) + " interface="@
        + decimal(counts.interfaces as nat) + " planar="@ + decimal(counts.planars as nat)
        + " tangent="@ + decimal(counts.tangents as nat) + "\n"@ + "internal inequality="@ + decimal(
        internal.n_inequality as nat,
    ) + " interface="@ + decimal(internal.n_interface as nat) + " planar="@ + decimal(
        internal.n_planar as nat,
    ) + " tangent="@ + decimal(internal.n_tangent as nat) + " constraints="@ + decimal(
        internal.n_constraints as nat,
    ) + " equality="@ + decimal(internal.n_equality as nat) + " polynomial="@ + decimal(
        internal.n_poly_terms as nat,
    ) + "\n"@ + "matrix size="@ + decimal(size) + " equality="@ + range_text(partitions.equality())
        + " inequality="@ + range_text(partitions.inequality()) + " bounded="@ + range_text(
        partitions.bounded(),
    ) + " polynomial="@ + range_text(partitions.polynomial()) + "\n"@
}

/// One `section name=start..end` line per section, in order.
pub open spec fn sections_text(sections: Seq<LayoutSection>) -> Seq<char>
    decreases sections.len(),
{
    if sections.len() == 0 {
        Seq::empty()
    } else {
        sections_text(sections.drop_last()) + "section "@ + section_kind_name(sections.last().kind())
            + "="@ + range_text(sections.last().range())
            + "\n"@
    }
}

/// The line of row `index`: its index, role and label, followed by a line
/// break unless it is the last of `count` rows.
pub open spec fn dof_line(index: nat, role: LayoutRole, dof: LayoutDof, count: nat) -> Seq<char> {
    decimal(index) + " "@ + role_name(role) + " "@ + dof_text(dof) + if index + 1 != count {
        "\n"@
    } else {
        Seq::empty()
    }
}

/// The lines of the first `k` rows.
pub open spec fn dof_lines(dofs: Seq<LayoutDof>, roles: Seq<LayoutRole>, k: nat) -> Seq<char>
    decreases k,
{
    if k == 0 {
        Seq::empty()
    } else {
        dof_lines(dofs, roles, (k - 1) as nat) + dof_line(
            (k - 1) as nat,
            roles[k - 1],
            dofs[k - 1],
            dofs.len(),
        )
    }
}

/// The complete snapshot text of a layout.
pub open spec fn snapshot_text(layout: ConstraintLayout) -> Seq<char> {
    snapshot_header(
        layout.model_spec(),
        layout.source_counts_spec(),
        layout.internal_parameters_spec(),
        layout.dofs_spec().len(),
        layout.partitions_spec(),
    ) + sections_text(layout.sections_spec()) + dof_lines(
        layout.dofs_spec(),
        layout.roles_spec(),
        layout.dofs_spec().len(),
    )
}


/// The number of line breaks in `s`.
pub open spec fn line_breaks(s: Seq<char>) -> nat
    decreases s.len(),
{
    if s.len() == 0 {
        0
    } else {
        line_breaks(s.drop_last()) + if s.last() == '\n' {
            1nat
        } else {
            0nat
        }
    }
}

/// Line breaks add up over concatenation.
pub broadcast proof fn lemma_line_breaks_concat(a: Seq<char>, b: Seq<char>)
    ensures
        #[trigger] line_breaks(a + b) == line_breaks(a) + line_breaks(b),
    decreases b.len(),
{
    if b.len() == 0 {
        assert(a + b =~= a);
    } else {
        lemma_line_breaks_concat(a, b.drop_last());
        assert((a + b).drop_last() =~= a + b.drop_last());
    }
}



/// Decimal digits hold no line break, and there is at least one.
proof fn lemma_decimal_unbroken(value: nat)
    ensures
        line_breaks(decimal(value)) == 0,
        decimal(value).len() > 0,
    decreases value,
{
    broadcast use lemma_line_breaks_concat;

    let last = seq![crate::text::digit_char(value % 10)];
    assert(crate::text::digit_char(value % 10) != '\n');
    assert(crate::text::digit_char(value) != '\n');
    assert(last.drop_last() =~= Seq::<char>::empty());
    assert(line_breaks(last) == 0) by {
        reveal_with_fuel(line_breaks, 2);
    }
    if value >= 10 {
        lemma_decimal_unbroken(value / 10);
    } else {
        assert(decimal(value) == seq![crate::text::digit_char(value)]);
        assert(seq![crate::text::digit_char(value)].drop_last() =~= Seq::<char>::empty());
        assert(line_breaks(seq![crate::text::digit_char(value)]) == 0) by {
            reveal_with_fuel(line_breaks, 2);
        }
    }
}

/// The text of a range holds no line break.
proof fn lemma_range_unbroken(range: IndexRange)
    ensures
        line_breaks(range_text(range)) == 0,
{
    broadcast use lemma_line_breaks_concat;

    lemma_decimal_unbroken(range.start() as nat);
    lemma_decimal_unbroken(range.end() as nat);
    reveal_strlit("..");
    reveal_with_fuel(line_breaks, 3);
}

/// The names in the snapshot header hold no line break.
proof fn lemma_header_names_unbroken(model: ModelType, internal: InternalParameters)
    ensures
        line_breaks(model_name(model)) == 0,
        line_breaks(solver_name(internal.problem_type)) == 0,
        line_breaks(bool_text(internal.modified_basis)) == 0,
        line_breaks(bool_text(internal.restricted_range)) == 0,
{
    lemma_model_name_unbroken(model);
    lemma_solver_name_unbroken(internal.problem_type);
    lemma_bool_text_unbroken(internal.modified_basis);
    lemma_bool_text_unbroken(internal.restricted_range);
}

/// A model name holds no line break.
proof fn lemma_model_name_unbroken(model: ModelType)
    ensures
        line_breaks(model_name(model)) == 0,
{
    match model {
        ModelType::SingleSurface => {
            reveal_strlit("SingleSurface");
            reveal_with_fuel(line_breaks, 14);
        },
        ModelType::LajaunieApproach => {
            reveal_strlit("LajaunieApproach");
            reveal_with_fuel(line_breaks, 17);
        },
        ModelType::StratigraphicHorizons => {
            reveal_strlit("StratigraphicHorizons");
            reveal_with_fuel(line_breaks, 22);
        },
        ModelType::ContinuousProperty => {
            reveal_strlit("ContinuousProperty");
            reveal_with_fuel(line_breaks, 19);
        },
        ModelType::VectorField => {
            reveal_strlit("VectorField");
            reveal_with_fuel(line_breaks, 12);
        },
    }
}

/// A solver name holds no line break.
proof fn lemma_solver_name_unbroken(solver: crate::parameters::SolverType)
    ensures
        line_breaks(solver_name(solver)) == 0,
{
    match solver {
        crate::parameters::SolverType::Linear => {
            reveal_strlit("Linear");
            reveal_with_fuel(line_breaks, 7);
        },
        crate::parameters::SolverType::PredictorCorrector => {
            reveal_strlit("PredictorCorrector");
            reveal_with_fuel(line_breaks, 19);
        },
        crate::parameters::SolverType::Loqo => {
            reveal_strlit("Loqo");
            reveal_with_fuel(line_breaks, 5);
        },
    }
}

/// A boolean's text holds no line break.
proof fn lemma_bool_text_unbroken(value: bool)
    ensures
        line_breaks(bool_text(value)) == 0,
{
    if value {
        reveal_strlit("true");
        reveal_with_fuel(line_breaks, 5);
    } else {
        reveal_strlit("false");
        reveal_with_fuel(line_breaks, 6);
    }
}

/// The fixed words of the snapshot header hold no line break, and the line
/// end holds one.
proof fn lemma_header_words()
    ensures
        line_breaks("model="@) == 0,
        line_breaks(" solver="@) == 0,
        line_breaks(" modified="@) == 0,
        line_breaks(" restricted="@) == 0,
        line_breaks("\n"@) == 1,
        line_breaks("source inequality="@) == 0,
        line_breaks(" interface="@) == 0,
        line_breaks(" planar="@) == 0,
        line_breaks(" tangent="@) == 0,
        line_breaks("internal inequality="@) == 0,
        line_breaks(" constraints="@) == 0,
        line_breaks(" equality="@) == 0,
        line_breaks(" polynomial="@) == 0,
        line_breaks("matrix size="@) == 0,
        line_breaks(" inequality="@) == 0,
        line_breaks(" bounded="@) == 0,
{
    reveal_strlit("model=");
    reveal_strlit(" solver=");
    reveal_strlit(" modified=");
    reveal_strlit(" restricted=");
    reveal_strlit("\n");
    reveal_strlit("source inequality=");
    reveal_strlit(" interface=");
    reveal_strlit(" planar=");
    reveal_strlit(" tangent=");
    reveal_strlit("internal inequality=");
    reveal_strlit(" constraints=");
    reveal_strlit(" equality=");
    reveal_strlit(" polynomial=");
    reveal_strlit("matrix size=");
    reveal_strlit(" inequality=");
    reveal_strlit(" bounded=");
    reveal_with_fuel(line_breaks, 25);
}

/// The snapshot header is four lines, each ended by a line break.
proof fn lemma_header_lines(
    model: ModelType,
    counts: SourceConstraintCounts,
    internal: InternalParameters,
    size: nat,
    partitions: LayoutPartitions,
)
    ensures
        line_breaks(snapshot_header(model, counts, internal, size, partitions)) == 4,
{
    broadcast use lemma_line_breaks_concat;

    lemma_header_words();
    lemma_header_names_unbroken(model, internal);
    lemma_decimal_unbroken(counts.inequalities as nat);
    lemma_decimal_unbroken(counts.interfaces as nat);
    lemma_decimal_unbroken(counts.planars as nat);
    lemma_decimal_unbroken(counts.tangents as nat);
    lemma_decimal_unbroken(internal.n_inequality as nat);
    lemma_decimal_unbroken(internal.n_interface as nat);
    lemma_decimal_unbroken(internal.n_planar as nat);
    lemma_decimal_unbroken(internal.n_tangent as nat);
    lemma_decimal_unbroken(internal.n_constraints as nat);
    lemma_decimal_unbroken(internal.n_equality as nat);
    lemma_decimal_unbroken(internal.n_poly_terms as nat);
    lemma_decimal_unbroken(size);
    lemma_range_unbroken(partitions.equality());
    lemma_range_unbroken(partitions.inequality());
    lemma_range_unbroken(partitions.bounded());
    lemma_range_unbroken(partitions.polynomial());
}

/// A section kind's name holds no line break.
proof fn lemma_section_name_unbroken(kind: LayoutSectionKind)
    ensures
        line_breaks(section_kind_name(kind)) == 0,
{
    match kind {
        LayoutSectionKind::InequalityValues => {
            reveal_strlit("inequality_values");
            reveal_with_fuel(line_breaks, 18);
        },
        LayoutSectionKind::InterfaceValues => {
            reveal_strlit("interface_values");
            reveal_with_fuel(line_breaks, 17);
        },
        LayoutSectionKind::SequencedInterfaceDifferences => {
            reveal_strlit("sequenced_interface_differences");
            reveal_with_fuel(line_breaks, 32);
        },
        LayoutSectionKind::SequencedInequalityDifferences => {
            reveal_strlit("sequenced_inequality_differences");
            reveal_with_fuel(line_breaks, 33);
        },
        LayoutSectionKind::SameLevelDifferences => {
            reveal_strlit("same_level_differences");
            reveal_with_fuel(line_breaks, 23);
        },
        LayoutSectionKind::PlanarDerivatives => {
            reveal_strlit("planar_derivatives");
            reveal_with_fuel(line_breaks, 19);
        },
        LayoutSectionKind::Tangents => {
            reveal_strlit("tangents");
            reveal_with_fuel(line_breaks, 9);
        },
        LayoutSectionKind::Polynomial => {
            reveal_strlit("polynomial");
            reveal_with_fuel(line_breaks, 11);
        },
    }
}

/// The fixed words of a section line.
proof fn lemma_section_words()
    ensures
        line_breaks("section "@) == 0,
        line_breaks("="@) == 0,
        line_breaks("\n"@) == 1,
{
    reveal_strlit("section ");
    reveal_strlit("=");
    reveal_strlit("\n");
    reveal_with_fuel(line_breaks, 9);
}

/// One line per section.
proof fn lemma_section_lines(sections: Seq<LayoutSection>)
    ensures
        line_breaks(sections_text(sections)) == sections.len(),
    decreases sections.len(),
{
    broadcast use lemma_line_breaks_concat;

    if sections.len() > 0 {
        lemma_section_lines(sections.drop_last());
        lemma_range_unbroken(sections.last().range());
        lemma_section_words();
        lemma_section_name_unbroken(sections.last().kind());
    }
}

/// The fixed words of row labels hold no line break.
proof fn lemma_label_words()
    ensures
        line_breaks("inequality["@) == 0,
        line_breaks("interface["@) == 0,
        line_breaks("]"@) == 0,
        line_breaks("difference."@) == 0,
        line_breaks("("@) == 0,
        line_breaks("-"@) == 0,
        line_breaks(")"@) == 0,
        line_breaks("planar["@) == 0,
        line_breaks("].d"@) == 0,
        line_breaks("tangent["@) == 0,
        line_breaks("polynomial["@) == 0,
        "]"@.len() == 1,
        ")"@.len() == 1,
{
    reveal_strlit("inequality[");
    reveal_strlit("interface[");
    reveal_strlit("]");
    reveal_strlit("difference.");
    reveal_strlit("(");
    reveal_strlit("-");
    reveal_strlit(")");
    reveal_strlit("planar[");
    reveal_strlit("].d");
    reveal_strlit("tangent[");
    reveal_strlit("polynomial[");
    reveal_with_fuel(line_breaks, 13);
}

/// A difference kind's name holds no line break.
proof fn lemma_difference_name_unbroken(kind: DifferenceKind)
    ensures
        line_breaks(difference_kind_name(kind)) == 0,
{
    match kind {
        DifferenceKind::SameLevelInterface => {
            reveal_strlit("same_level");
            reveal_with_fuel(line_breaks, 11);
        },
        DifferenceKind::SequencedInterfaces => {
            reveal_strlit("sequenced_interfaces");
            reveal_with_fuel(line_breaks, 21);
        },
        DifferenceKind::InequalityBelowUpperInterface => {
            reveal_strlit("upper_minus_inequality");
            reveal_with_fuel(line_breaks, 23);
        },
        DifferenceKind::InequalityAboveLowerInterface => {
            reveal_strlit("inequality_minus_lower");
            reveal_with_fuel(line_breaks, 23);
        },
    }
}

/// An axis label is one character other than a line break.
proof fn lemma_axis_unbroken(axis: Axis)
    ensures
        line_breaks(axis_label(axis)) == 0,
        axis_label(axis).len() == 1,
{
    match axis {
        Axis::X => {
            reveal_strlit("x");
            reveal_with_fuel(line_breaks, 2);
        },
        Axis::Y => {
            reveal_strlit("y");
            reveal_with_fuel(line_breaks, 2);
        },
        Axis::Z => {
            reveal_strlit("z");
            reveal_with_fuel(line_breaks, 2);
        },
    }
}

/// A point reference holds no line break.
proof fn lemma_point_ref_unbroken(point: LayoutPointRef)
    ensures
        line_breaks(point_ref_text(point)) == 0,
{
    broadcast use lemma_line_breaks_concat;

    lemma_label_words();
    match point {
        LayoutPointRef::Interface(i) => lemma_decimal_unbroken(i as nat),
        LayoutPointRef::Inequality(i) => lemma_decimal_unbroken(i as nat),
    }
}

/// The label of a row holds no line break and is not empty.
proof fn lemma_dof_text_unbroken(dof: LayoutDof)
    ensures
        line_breaks(dof_text(dof)) == 0,
        dof_text(dof).len() > 0,
{
    broadcast use lemma_line_breaks_concat;

    lemma_label_words();
    match dof {
        LayoutDof::InequalityValue { index } => lemma_decimal_unbroken(index as nat),
        LayoutDof::InterfaceValue { index } => lemma_decimal_unbroken(index as nat),
        LayoutDof::Difference { kind, positive, negative } => {
            lemma_difference_name_unbroken(kind);
            lemma_point_ref_unbroken(positive);
            lemma_point_ref_unbroken(negative);
        },
        LayoutDof::PlanarDerivative { index, axis } => {
            lemma_decimal_unbroken(index as nat);
            lemma_axis_unbroken(axis);
        },
        LayoutDof::Tangent { index } => lemma_decimal_unbroken(index as nat),
        LayoutDof::PolynomialTerm { index } => lemma_decimal_unbroken(index as nat),
    }
}

/// A role's name holds no line break.
proof fn lemma_role_name_unbroken(role: LayoutRole)
    ensures
        line_breaks(role_name(role)) == 0,
{
    match role {
        LayoutRole::Equality => {
            reveal_strlit("equality");
            reveal_with_fuel(line_breaks, 9);
        },
        LayoutRole::Inequality => {
            reveal_strlit("inequality");
            reveal_with_fuel(line_breaks, 11);
        },
        LayoutRole::Bounded => {
            reveal_strlit("bounded");
            reveal_with_fuel(line_breaks, 8);
        },
        LayoutRole::Polynomial => {
            reveal_strlit("polynomial");
            reveal_with_fuel(line_breaks, 11);
        },
    }
}

/// The separators of a row line.
proof fn lemma_row_words()
    ensures
        line_breaks(" "@) == 0,
        line_breaks("\n"@) == 1,
        line_breaks(Seq::<char>::empty()) == 0,
{
    reveal_strlit(" ");
    reveal_strlit("\n");
    reveal_with_fuel(line_breaks, 2);
}

/// The first `k` row lines hold one line break per row but the last row.
proof fn lemma_dof_lines(dofs: Seq<LayoutDof>, roles: Seq<LayoutRole>, k: nat)
    requires
        k <= dofs.len(),
    ensures
        line_breaks(dof_lines(dofs, roles, k)) == if k == dofs.len() && k > 0 {
            k - 1
        } else {
            k as int
        },
    decreases k,
{
    broadcast use lemma_line_breaks_concat;

    if k > 0 {
        lemma_dof_lines(dofs, roles, (k - 1) as nat);
        lemma_decimal_unbroken((k - 1) as nat);
        lemma_dof_text_unbroken(dofs[k - 1]);
        lemma_row_words();
        lemma_role_name_unbroken(roles[k - 1]);
    }
}

/// A layout with rows snapshots as four header lines, one line per section
/// and one line per row, with no line break after the last row.
pub proof fn lemma_snapshot_lines(layout: ConstraintLayout)
    requires
        layout.dofs_spec().len() > 0,
    ensures
        line_breaks(snapshot_text(layout)) + 1 == 4 + layout.sections_spec().len() + layout.dofs_spec().len(),
        snapshot_text(layout).last() != '\n',
{
    broadcast use lemma_line_breaks_concat;

    let dofs = layout.dofs_spec();
    let count = dofs.len();
    lemma_header_lines(
        layout.model_spec(),
        layout.source_counts_spec(),
        layout.internal_parameters_spec(),
        count,
        layout.partitions_spec(),
    );
    lemma_section_lines(layout.sections_spec());
    lemma_dof_lines(dofs, layout.roles_spec(), count);
    let roles = layout.roles_spec();
    let last_line = dof_line((count - 1) as nat, roles[count - 1], dofs[count - 1], count);
    lemma_dof_text_unbroken(dofs[count - 1]);
    let label = dof_text(dofs[count - 1]);
    assert(last_line == decimal((count - 1) as nat) + " "@ + role_name(roles[count - 1]) + " "@ + label
        + Seq::<char>::empty());
    assert(label.last() != '\n');
    assert(dof_lines(dofs, roles, count) == dof_lines(dofs, roles, (count - 1) as nat) + last_line);
    assert(snapshot_text(layout).last() == last_line.last());
    assert(last_line.last() == label.last());
}

impl LayoutRole {
    /// The snapshot name of this role.
    pub fn snapshot_name(self) -> (name: &'static str)
        ensures
            name@ == role_name(self),
    {
        match self {
            LayoutRole::Equality => "equality",
            LayoutRole::Inequality => "inequality",
            LayoutRole::Bounded => "bounded",
            LayoutRole::Polynomial => "polynomial",
        }
    }
}

impl LayoutSectionKind {
    /// The snapshot name of this section kind.
    pub fn snapshot_name(self) -> (name: &'static str)
        ensures
            name@ == section_kind_name(self),
    {
        match self {
            LayoutSectionKind::InequalityValues => "inequality_values",
            LayoutSectionKind::InterfaceValues => "interface_values",
            LayoutSectionKind::SequencedInterfaceDifferences => "sequenced_interface_differences",
            LayoutSectionKind::SequencedInequalityDifferences => "sequenced_inequality_differences",
            LayoutSectionKind::SameLevelDifferences => "same_level_differences",
            LayoutSectionKind::PlanarDerivatives => "planar_derivatives",
            LayoutSectionKind::Tangents => "tangents",
            LayoutSectionKind::Polynomial => "polynomial",
        }
    }
}

/// The snapshot name of a difference kind.
pub fn difference_name(kind: DifferenceKind) -> (name: &'static str)
    ensures
        name@ == difference_kind_name(kind),
{
    match kind {
        DifferenceKind::SameLevelInterface => "same_level",
        DifferenceKind::SequencedInterfaces => "sequenced_interfaces",
        DifferenceKind::InequalityBelowUpperInterface => "upper_minus_inequality",
        DifferenceKind::InequalityAboveLowerInterface => "inequality_minus_lower",
    }
}

/// The snapshot name of an axis.
pub fn axis_name(axis: Axis) -> (name: &'static str)
    ensures
        name@ == axis_label(axis),
{
    match axis {
        Axis::X => "x",
        Axis::Y => "y",
        Axis::Z => "z",
    }
}

fn push_range(text: &mut String, range: IndexRange)
    ensures
        final(text)@ == old(text)@ + range_text(range),
{
    push_decimal(text, range.start);
    text.append("..");
    push_decimal(text, range.end);
    proof {
        assert(final(text)@ =~= old(text)@ + range_text(range));
    }
}

fn push_indexed(text: &mut String, prefix: &str, index: usize)
    ensures
        final(text)@ == old(text)@ + (prefix@ + decimal(index as nat) + "]"@),
{
    text.append(prefix);
    push_decimal(text, index);
    text.append("]");
    proof {
        assert(final(text)@ =~= old(text)@ + (prefix@ + decimal(index as nat) + "]"@));
    }
}

fn push_point_ref(text: &mut String, point: LayoutPointRef)
    ensures
        final(text)@ == old(text)@ + point_ref_text(point),
{
    match point {
        LayoutPointRef::Interface(index) => push_indexed(text, "interface[", index),
        LayoutPointRef::Inequality(index) => push_indexed(text, "inequality[", index),
    }
}

fn push_dof(text: &mut String, dof: LayoutDof)
    ensures
        final(text)@ == old(text)@ + dof_text(dof),
{
    match dof {
        LayoutDof::InequalityValue { index } => push_indexed(text, "inequality[", index),
        LayoutDof::InterfaceValue { index } => push_indexed(text, "interface[", index),
        LayoutDof::Difference { kind, positive, negative } => {
            text.append("difference.");
            text.append(difference_name(kind));
            text.append("(");
            push_point_ref(text, positive);
            text.append("-");
            push_point_ref(text, negative);
            text.append(")");
            proof {
                assert(final(text)@ =~= old(text)@ + dof_text(dof));
            }
        },
        LayoutDof::PlanarDerivative { index, axis } => {
            text.append("planar[");
            push_decimal(text, index);
            text.append("].d");
            text.append(axis_name(axis));
            proof {
                assert(final(text)@ =~= old(text)@ + dof_text(dof));
            }
        },
        LayoutDof::Tangent { index } => push_indexed(text, "tangent[", index),
        LayoutDof::PolynomialTerm { index } => push_indexed(text, "polynomial[", index),
    }
}

impl ConstraintLayout {
    /// Exact, stable, human-readable evidence for reviews and fixtures.
    pub fn debug_snapshot(&self) -> (snapshot: String)
        ensures
            snapshot@ == snapshot_text(*self),
    {
        proof {
            use_type_invariant(self);
        }
        let internal = &self.internal_parameters;
        let mut snapshot = String::from_str("model=");
        snapshot.append(self.model.name());
        snapshot.append(" solver=");
        snapshot.append(internal.problem_type.name());
        snapshot.append(" modified=");
        push_bool(&mut snapshot, internal.modified_basis);
        snapshot.append(" restricted=");
        push_bool(&mut snapshot, internal.restricted_range);
        snapshot.append("\n");
        snapshot.append("source inequality=");
        push_decimal(&mut snapshot, self.source_counts.inequalities);
        snapshot.append(" interface=");
        push_decimal(&mut snapshot, self.source_counts.interfaces);
        snapshot.append(" planar=");
        push_decimal(&mut snapshot, self.source_counts.planars);
        snapshot.append(" tangent=");
        push_decimal(&mut snapshot, self.source_counts.tangents);
        snapshot.append("\n");
        snapshot.append("internal inequality=");
        push_decimal(&mut snapshot, internal.n_inequality);
        snapshot.append(" interface=");
        push_decimal(&mut snapshot, internal.n_interface);
        snapshot.append(" planar=");
        push_decimal(&mut snapshot, internal.n_planar);
        snapshot.append(" tangent=");
        push_decimal(&mut snapshot, internal.n_tangent);
        snapshot.append(" constraints=");
        push_decimal(&mut snapshot, internal.n_constraints);
        snapshot.append(" equality=");
        push_decimal(&mut snapshot, internal.n_equality);
        snapshot.append(" polynomial=");
        push_decimal(&mut snapshot, internal.n_poly_terms);
        snapshot.append("\n");
        snapshot.append("matrix size=");
        push_decimal(&mut snapshot, self.dofs.len());
        snapshot.append(" equality=");
        push_range(&mut snapshot, self.partitions.equality);
        snapshot.append(" inequality=");
        push_range(&mut snapshot, self.partitions.inequality);
        snapshot.append(" bounded=");
        push_range(&mut snapshot, self.partitions.bounded);
        snapshot.append(" polynomial=");
        push_range(&mut snapshot, self.partitions.polynomial);
        snapshot.append("\n");
        let ghost header = snapshot_header(
            self.model,
            self.source_counts,
            self.internal_parameters,
            self.dofs@.len(),
            self.partitions,
        );
        proof {
            assert(snapshot@ =~= header);
            assert(self.sections@.take(0) =~= Seq::<LayoutSection>::empty());
        }
        let mut position: usize = 0;
        while position < self.sections.len()
            invariant
                position <= self.sections.len(),
                snapshot@ == header + sections_text(self.sections@.take(position as int)),
            decreases self.sections.len() - position,
        {
            let current = self.sections[position];
            snapshot.append("section ");
            snapshot.append(current.kind.snapshot_name());
            snapshot.append("=");
            push_range(&mut snapshot, current.range);
            snapshot.append("\n");
            proof {
                let taken = self.sections@.take(position + 1);
                assert(taken.drop_last() =~= self.sections@.take(position as int));
                assert(taken.last() == current);
                assert(snapshot@ =~= header + sections_text(taken));
            }
            position = position + 1;
        }
        proof {
            assert(self.sections@.take(self.sections.len() as int) =~= self.sections@);
        }
        let ghost with_sections = snapshot@;
        let mut index: usize = 0;
        while index < self.dofs.len()
            invariant
                index <= self.dofs.len(),
                self.dofs@.len() == self.roles@.len(),
                snapshot@ == with_sections + dof_lines(self.dofs@, self.roles@, index as nat),
            decreases self.dofs.len() - index,
        {
            push_decimal(&mut snapshot, index);
            snapshot.append(" ");
            snapshot.append(self.roles[index].snapshot_name());
            snapshot.append(" ");
            push_dof(&mut snapshot, self.dofs[index]);
            if index + 1 != self.dofs.len() {
                snapshot.append("\n");
            }
            proof {
                assert(snapshot@ =~= with_sections + dof_lines(self.dofs@, self.roles@, (index + 1) as nat));
            }
            index = index + 1;
        }
        snapshot
    }
}

} // verus!
