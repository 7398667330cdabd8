//! A plain-value inventory of a problem's declared inputs, and the
//! preflight accounting read from it: scalar relation counts, objective term
//! counts and the bytes of caller identifiers that reports retain.
//!
//! Each entry keeps only what the accounting reads. Identifiers carry the
//! length in bytes of their caller-facing text beside their identity, and a
//! normal carries the number of projection components its direction
//! constrains, which the caller derives from the direction itself.
use crate::fit::ScalarRelationCounts;
use crate::functional::{GroupId, SourceId};
use vstd::prelude::*;

verus! {

/// How a relation or a bound side is enforced.
#[derive(Debug, Clone, Copy, PartialEq, Eq, Structural)]
pub enum Enforcement {
    Hard,
    QuadraticPenalty,
    LinearViolationPenalty,
}

impl Enforcement {
    /// Whether the enforcement is a penalty rather than a hard constraint.
    pub open spec fn is_soft_spec(self) -> bool {
        !(self is Hard)
    }

    /// Whether the enforcement is a penalty rather than a hard constraint.
    pub fn is_soft(self) -> (soft: bool)
        ensures
            soft == self.is_soft_spec(),
    {
        match self {
            Enforcement::Hard => false,
            _ => true,
        }
    }
}

/// The kind of a point observation.
#[derive(Debug, Clone, Copy, PartialEq, Eq, Structural)]
pub enum ObservationKind {
    FieldValue,
    Gradient,
    TangentDirection,
}

/// A source identity with the length in bytes of its caller-facing text.
#[derive(Debug, Clone, Copy, PartialEq, Eq, Structural)]
pub struct SourceName {
    pub id: SourceId,
    pub bytes: usize,
}

/// A group identity with the length in bytes of its caller-facing text.
#[derive(Debug, Clone, Copy, PartialEq, Eq, Structural)]
pub struct GroupName {
    pub id: GroupId,
    pub bytes: usize,
}

/// A value, gradient or tangent observation.
#[derive(Debug, Clone, Copy, PartialEq, Eq, Structural)]
pub struct ObservationEntry {
    pub kind: ObservationKind,
    pub soft: bool,
    pub source: SourceName,
}

/// A shared level set and its member sources, in declaration order.
#[derive(Debug, Clone)]
pub struct SharedLevelSetEntry {
    pub group: GroupName,
    pub members: Vec<SourceName>,
}

/// One member of a covariance group.
#[derive(Debug, Clone, Copy, PartialEq, Eq, Structural)]
pub struct CovarianceMemberEntry {
    pub source: SourceName,
    /// Whether the member is a field-value observation.
    pub field_value: bool,
    /// The scalar residuals the member contributes.
    pub scalar_residuals: usize,
}

/// A covariance group of soft observations.
#[derive(Debug, Clone)]
pub struct CovarianceGroupEntry {
    pub group: GroupName,
    pub members: Vec<CovarianceMemberEntry>,
    /// The scalar residuals of the whole group.
    pub scalar_residuals: usize,
}

/// What an additive field gauge pins.
#[derive(Debug, Clone, Copy, PartialEq, Eq, Structural)]
pub enum GaugeReference {
    Point,
    LevelSet(GroupName),
}

/// An additive field gauge.
#[derive(Debug, Clone, Copy, PartialEq, Eq, Structural)]
pub struct GaugeEntry {
    pub source: SourceName,
    pub reference: GaugeReference,
}

/// A field-value bound or a directional-derivative interval, with its
/// optional lower and upper sides.
#[derive(Debug, Clone, Copy, PartialEq, Eq, Structural)]
pub struct BoundEntry {
    pub source: SourceName,
    pub lower: Option<Enforcement>,
    pub upper: Option<Enforcement>,
}

/// A field-separation interval between two shared level sets; both sides
/// are always present.
#[derive(Debug, Clone, Copy, PartialEq, Eq, Structural)]
pub struct SeparationEntry {
    pub source: SourceName,
    pub reference_group: GroupName,
    pub target_group: GroupName,
    pub lower: Enforcement,
    pub upper: Enforcement,
}

/// A point-to-level-set relation.
#[derive(Debug, Clone, Copy, PartialEq, Eq, Structural)]
pub struct PointRelationEntry {
    pub source: SourceName,
    pub group: GroupName,
    pub enforcement: Enforcement,
}

/// A relation between declared shared level sets.
#[derive(Debug, Clone)]
pub struct LevelRelationEntry {
    pub source: SourceName,
    pub groups: Vec<GroupName>,
    pub enforcement: Enforcement,
}

/// A directed or axial normal.
#[derive(Debug, Clone, Copy)]
pub struct NormalEntry {
    pub source: SourceName,
    /// Binary64 bit patterns of the declared direction or axis.
    pub direction_bits: [u64; 3],
    /// Projection components the direction constrains (at most three).
    pub projection_components: usize,
    pub direction_soft: bool,
    pub slope: Enforcement,
}

/// A polarity resolution of an axial normal.
#[derive(Debug, Clone, Copy, PartialEq, Eq, Structural)]
pub struct PolarityEntry {
    pub source: SourceName,
    pub axial_source: SourceName,
}

/// Every declared input of one problem, by category, in declaration order.
#[derive(Debug, Clone)]
pub struct ProblemInventory {
    pub observations: Vec<ObservationEntry>,
    pub shared_level_sets: Vec<SharedLevelSetEntry>,
    pub covariance_groups: Vec<CovarianceGroupEntry>,
    pub additive_field_gauges: Vec<GaugeEntry>,
    pub field_value_bounds: Vec<BoundEntry>,
    pub directional_derivative_intervals: Vec<BoundEntry>,
    pub field_separation_intervals: Vec<SeparationEntry>,
    pub point_to_level_set_relations: Vec<PointRelationEntry>,
    pub shared_level_set_relations: Vec<LevelRelationEntry>,
    pub directed_normals: Vec<NormalEntry>,
    pub axial_normals: Vec<NormalEntry>,
    pub polarity_resolutions: Vec<PolarityEntry>,
}

/// A quantity that preflight accounting sums over declared inputs.
#[derive(Debug, Clone, Copy, PartialEq, Eq, Structural)]
pub enum Measure {
    HardRelations,
    SoftRelations,
    QuadraticTerms,
    LinearTerms,
    IdentifierBytes,
}

/// `n` as a `usize`, or `None` when it does not fit.
pub open spec fn bounded(n: int) -> Option<usize> {
    if 0 <= n <= usize::MAX {
        Some(n as usize)
    } else {
        None
    }
}

/// A running `usize` sum `t` advanced by `n`; `None` stays `None`.
pub open spec fn add_to(t: Option<usize>, n: nat) -> Option<usize> {
    match t {
        Some(v) => bounded(v + n),
        None => None,
    }
}

/// An input whose contribution to each measure is known.
pub trait Measured {
    /// The contribution of this input to measure `m`.
    spec fn measure(&self, m: Measure) -> nat;

    /// The contribution, or `None` when it does not fit in `usize`.
    fn measured(&self, m: Measure) -> (r: Option<usize>)
        ensures
            r == bounded(self.measure(m) as int),
    ;
}

/// The sum of measure `m` over `s`.
pub open spec fn total<T: Measured>(s: Seq<T>, m: Measure) -> nat
    decreases s.len(),
{
    if s.len() == 0 {
        0
    } else {
        total(s.drop_last(), m) + s.last().measure(m)
    }
}

/// Advances the running sum `start` by measure `m` of every item.
fn tally<T: Measured>(items: &Vec<T>, m: Measure, start: Option<usize>) -> (r: Option<usize>)
    ensures
        r == add_to(start, total(items@, m)),
{
    let mut acc = start;
    let mut i: usize = 0;
    while i < items.len()
        invariant
            i <= items.len(),
            acc == add_to(start, total(items@.take(i as int), m)),
        decreases items.len() - i,
    {
        let w = items[i].measured(m);
        proof {
            assert(items@.take(i as int + 1).drop_last() =~= items@.take(i as int));
        }
        acc = match acc {
            Some(a) => match w {
                Some(x) => a.checked_add(x),
                None => None,
            },
            None => None,
        };
        i = i + 1;
    }
    proof {
        assert(items@.take(i as int) =~= items@);
    }
    acc
}

/// `a + b` over optional `usize` sums, `None` when either is `None` or the
/// sum does not fit.
fn add_options(a: Option<usize>, b: Option<usize>) -> (r: Option<usize>)
    ensures
        r == match (a, b) {
            (Some(x), Some(y)) => bounded(x + y),
            _ => None,
        },
{
    match a {
        Some(x) => match b {
            Some(y) => x.checked_add(y),
            None => None,
        },
        None => None,
    }
}

/// `a * b` as an optional `usize`.
fn mul_option(a: usize, b: usize) -> (r: Option<usize>)
    ensures
        r == bounded(a * b),
{
    proof {
        assert(a * b >= 0) by (nonlinear_arith);
    }
    a.checked_mul(b)
}

/// `1` when `b` holds, else `0`.
pub open spec fn indicator(b: bool) -> nat {
    if b {
        1
    } else {
        0
    }
}

/// The scalar residuals of one observation: three for a gradient.
pub open spec fn observation_multiplicity(kind: ObservationKind) -> nat {
    match kind {
        ObservationKind::Gradient => 3,
        _ => 1,
    }
}

/// The contribution of one enforced side to measure `m`, ignoring bytes.
pub open spec fn side_measure(e: Enforcement, m: Measure) -> nat {
    match m {
        Measure::HardRelations => indicator(e is Hard),
        Measure::SoftRelations => indicator(e.is_soft_spec()),
        Measure::QuadraticTerms => indicator(e is QuadraticPenalty),
        Measure::LinearTerms => indicator(e is LinearViolationPenalty),
        Measure::IdentifierBytes => 0,
    }
}

/// `side_measure` of an optional side; an absent side counts nothing.
pub open spec fn optional_side_measure(e: Option<Enforcement>, m: Measure) -> nat {
    match e {
        Some(e) => side_measure(e, m),
        None => 0,
    }
}

fn side_count(e: Enforcement, m: Measure) -> (r: usize)
    ensures
        r == side_measure(e, m),
{
    match m {
        Measure::HardRelations => match e {
            Enforcement::Hard => 1,
            _ => 0,
        },
        Measure::SoftRelations => match e {
            Enforcement::Hard => 0,
            _ => 1,
        },
        Measure::QuadraticTerms => match e {
            Enforcement::QuadraticPenalty => 1,
            _ => 0,
        },
        Measure::LinearTerms => match e {
            Enforcement::LinearViolationPenalty => 1,
            _ => 0,
        },
        Measure::IdentifierBytes => 0,
    }
}

fn optional_side_count(e: Option<Enforcement>, m: Measure) -> (r: usize)
    ensures
        r == optional_side_measure(e, m),
{
    match e {
        Some(e) => side_count(e, m),
        None => 0,
    }
}

/// The bytes of every source name in `s`.
pub open spec fn source_name_bytes(s: Seq<SourceName>) -> nat
    decreases s.len(),
{
    if s.len() == 0 {
        0
    } else {
        source_name_bytes(s.drop_last()) + s.last().bytes as nat
    }
}

/// The bytes of every group name in `s`.
pub open spec fn group_name_bytes(s: Seq<GroupName>) -> nat
    decreases s.len(),
{
    if s.len() == 0 {
        0
    } else {
        group_name_bytes(s.drop_last()) + s.last().bytes as nat
    }
}

/// The bytes one covariance member retains: its group's name and its own
/// once per scalar residual. Two names whose lengths together exceed
/// `usize` count as more than `usize` can hold, whatever the residuals.
pub open spec fn covariance_member_weight(group_bytes: nat, member: CovarianceMemberEntry) -> nat {
    if group_bytes + member.source.bytes as nat > usize::MAX {
        usize::MAX as nat + 1
    } else {
        (group_bytes + member.source.bytes as nat) * (member.scalar_residuals as nat)
    }
}

/// The bytes a covariance group whose own name has `group_bytes` bytes
/// retains for `members`.
pub open spec fn covariance_member_bytes(group_bytes: nat, members: Seq<CovarianceMemberEntry>) -> nat
    decreases members.len(),
{
    if members.len() == 0 {
        0
    } else {
        covariance_member_bytes(group_bytes, members.drop_last()) + covariance_member_weight(
            group_bytes,
            members.last(),
        )
    }
}

fn source_names_bytes(names: &Vec<SourceName>) -> (r: Option<usize>)
    ensures
        r == bounded(source_name_bytes(names@) as int),
{
    let mut acc: Option<usize> = Some(0);
    let mut i: usize = 0;
    while i < names.len()
        invariant
            i <= names.len(),
            acc == bounded(source_name_bytes(names@.take(i as int)) as int),
        decreases names.len() - i,
    {
        proof {
            assert(names@.take(i as int + 1).drop_last() =~= names@.take(i as int));
        }
        acc = add_options(acc, Some(names[i].bytes));
        i = i + 1;
    }
    proof {
        assert(names@.take(i as int) =~= names@);
    }
    acc
}

fn group_names_bytes(names: &Vec<GroupName>) -> (r: Option<usize>)
    ensures
        r == bounded(group_name_bytes(names@) as int),
{
    let mut acc: Option<usize> = Some(0);
    let mut i: usize = 0;
    while i < names.len()
        invariant
            i <= names.len(),
            acc == bounded(group_name_bytes(names@.take(i as int)) as int),
        decreases names.len() - i,
    {
        proof {
            assert(names@.take(i as int + 1).drop_last() =~= names@.take(i as int));
        }
        acc = add_options(acc, Some(names[i].bytes));
        i = i + 1;
    }
    proof {
        assert(names@.take(i as int) =~= names@);
    }
    acc
}

fn covariance_members_bytes(group_bytes: usize, members: &Vec<CovarianceMemberEntry>) -> (r: Option<
    usize,
>)
    ensures
        r == bounded(covariance_member_bytes(group_bytes as nat, members@) as int),
{
    let mut acc: Option<usize> = Some(0);
    let mut i: usize = 0;
    while i < members.len()
        invariant
            i <= members.len(),
            acc == bounded(covariance_member_bytes(group_bytes as nat, members@.take(i as int)) as int),
        decreases members.len() - i,
    {
        proof {
            assert(members@.take(i as int + 1).drop_last() =~= members@.take(i as int));
        }
        let member = members[i];
        let weighted = match group_bytes.checked_add(member.source.bytes) {
            Some(n) => mul_option(n, member.scalar_residuals),
            None => None,
        };
        acc = add_options(acc, weighted);
        i = i + 1;
    }
    proof {
        assert(members@.take(i as int) =~= members@);
    }
    acc
}

impl Measured for ObservationEntry {
    open spec fn measure(&self, m: Measure) -> nat {
        let n = observation_multiplicity(self.kind);
        match m {
            Measure::HardRelations => if self.soft { 0 } else { n },
            Measure::SoftRelations => if self.soft { n } else { 0 },
            Measure::QuadraticTerms => indicator(self.soft),
            Measure::LinearTerms => 0,
            Measure::IdentifierBytes => self.source.bytes as nat * n,
        }
    }

    fn measured(&self, m: Measure) -> (r: Option<usize>) {
        let n: usize = match self.kind {
            ObservationKind::Gradient => 3,
            _ => 1,
        };
        match m {
            Measure::HardRelations => Some(if self.soft { 0 } else { n }),
            Measure::SoftRelations => Some(if self.soft { n } else { 0 }),
            Measure::QuadraticTerms => Some(if self.soft { 1 } else { 0 }),
            Measure::LinearTerms => Some(0),
            Measure::IdentifierBytes => mul_option(self.source.bytes, n),
        }
    }
}

impl Measured for SharedLevelSetEntry {
    /// Every member is one hard relation; reports keep the group's name
    /// beside each member's.
    open spec fn measure(&self, m: Measure) -> nat {
        match m {
            Measure::HardRelations => self.members@.len(),
            Measure::IdentifierBytes => self.group.bytes as nat * self.members@.len()
                + source_name_bytes(self.members@),
            _ => 0,
        }
    }

    fn measured(&self, m: Measure) -> (r: Option<usize>) {
        match m {
            Measure::HardRelations => Some(self.members.len()),
            Measure::IdentifierBytes => add_options(
                mul_option(self.group.bytes, self.members.len()),
                source_names_bytes(&self.members),
            ),
            _ => Some(0),
        }
    }
}

impl Measured for CovarianceGroupEntry {
    /// The group's residuals are soft relations and it is one quadratic term.
    open spec fn measure(&self, m: Measure) -> nat {
        match m {
            Measure::SoftRelations => self.scalar_residuals as nat,
            Measure::QuadraticTerms => 1,
            Measure::IdentifierBytes => covariance_member_bytes(self.group.bytes as nat, self.members@),
            _ => 0,
        }
    }

    fn measured(&self, m: Measure) -> (r: Option<usize>) {
        match m {
            Measure::SoftRelations => Some(self.scalar_residuals),
            Measure::QuadraticTerms => Some(1),
            Measure::IdentifierBytes => covariance_members_bytes(self.group.bytes, &self.members),
            _ => Some(0),
        }
    }
}

impl Measured for GaugeEntry {
    /// A gauge is one hard relation; a level-set gauge also keeps its group.
    open spec fn measure(&self, m: Measure) -> nat {
        match m {
            Measure::HardRelations => 1,
            Measure::IdentifierBytes => self.source.bytes as nat + match self.reference {
                GaugeReference::Point => 0,
                GaugeReference::LevelSet(group) => group.bytes as nat,
            },
            _ => 0,
        }
    }

    fn measured(&self, m: Measure) -> (r: Option<usize>) {
        match m {
            Measure::HardRelations => Some(1),
            Measure::IdentifierBytes => {
                let group_bytes: usize = match self.reference {
                    GaugeReference::Point => 0,
                    GaugeReference::LevelSet(group) => group.bytes,
                };
                add_options(Some(self.source.bytes), Some(group_bytes))
            },
            _ => Some(0),
        }
    }
}

impl Measured for BoundEntry {
    /// Each present side counts by its enforcement; reports keep the source
    /// once per present side.
    open spec fn measure(&self, m: Measure) -> nat {
        match m {
            Measure::IdentifierBytes => self.source.bytes as nat * (indicator(self.lower is Some)
                + indicator(self.upper is Some)),
            _ => optional_side_measure(self.lower, m) + optional_side_measure(self.upper, m),
        }
    }

    fn measured(&self, m: Measure) -> (r: Option<usize>) {
        match m {
            Measure::IdentifierBytes => {
                let sides: usize = if self.lower.is_some() { 1 } else { 0 } + if self.upper.is_some() {
                    1
                } else {
                    0
                };
                mul_option(self.source.bytes, sides)
            },
            _ => Some(optional_side_count(self.lower, m) + optional_side_count(self.upper, m)),
        }
    }
}

impl Measured for SeparationEntry {
    /// Both sides count by their enforcement; reports keep the source and
    /// both group names once per side.
    open spec fn measure(&self, m: Measure) -> nat {
        match m {
            Measure::IdentifierBytes => 2 * self.source.bytes as nat + 2 * self.reference_group.bytes as nat
                + 2 * self.target_group.bytes as nat,
            _ => side_measure(self.lower, m) + side_measure(self.upper, m),
        }
    }

    fn measured(&self, m: Measure) -> (r: Option<usize>) {
        match m {
            Measure::IdentifierBytes => add_options(
                add_options(
                    mul_option(self.source.bytes, 2),
                    mul_option(self.reference_group.bytes, 2),
                ),
                mul_option(self.target_group.bytes, 2),
            ),
            _ => Some(side_count(self.lower, m) + side_count(self.upper, m)),
        }
    }
}

impl Measured for PointRelationEntry {
    /// One relation counted by its enforcement; reports keep the source and
    /// the group name.
    open spec fn measure(&self, m: Measure) -> nat {
        match m {
            Measure::IdentifierBytes => self.source.bytes as nat + self.group.bytes as nat,
            _ => side_measure(self.enforcement, m),
        }
    }

    fn measured(&self, m: Measure) -> (r: Option<usize>) {
        match m {
            Measure::IdentifierBytes => add_options(Some(self.source.bytes), Some(self.group.bytes)),
            _ => Some(side_count(self.enforcement, m)),
        }
    }
}

impl Measured for LevelRelationEntry {
    /// One relation counted by its enforcement; reports keep the source and
    /// every declared group name.
    open spec fn measure(&self, m: Measure) -> nat {
        match m {
            Measure::IdentifierBytes => self.source.bytes as nat + group_name_bytes(self.groups@),
            _ => side_measure(self.enforcement, m),
        }
    }

    fn measured(&self, m: Measure) -> (r: Option<usize>) {
        match m {
            Measure::IdentifierBytes => add_options(
                Some(self.source.bytes),
                group_names_bytes(&self.groups),
            ),
            _ => Some(side_count(self.enforcement, m)),
        }
    }
}

impl Measured for NormalEntry {
    /// The direction constrains its projection components and the minimum
    /// slope is one more relation; reports keep the source four times.
    open spec fn measure(&self, m: Measure) -> nat {
        let pc = self.projection_components as nat;
        match m {
            Measure::HardRelations => (if self.direction_soft { 0 } else { pc }) + side_measure(
                self.slope,
                m,
            ),
            Measure::SoftRelations => (if self.direction_soft { pc } else { 0 }) + side_measure(
                self.slope,
                m,
            ),
            Measure::QuadraticTerms => indicator(self.direction_soft) + side_measure(self.slope, m),
            Measure::LinearTerms => side_measure(self.slope, m),
            Measure::IdentifierBytes => 4 * self.source.bytes as nat,
        }
    }

    fn measured(&self, m: Measure) -> (r: Option<usize>) {
        match m {
            Measure::HardRelations => add_options(
                Some(if self.direction_soft { 0 } else { self.projection_components }),
                Some(side_count(self.slope, m)),
            ),
            Measure::SoftRelations => add_options(
                Some(if self.direction_soft { self.projection_components } else { 0 }),
                Some(side_count(self.slope, m)),
            ),
            Measure::QuadraticTerms => Some(
                if self.direction_soft { 1 } else { 0 } + side_count(self.slope, m),
            ),
            Measure::LinearTerms => Some(side_count(self.slope, m)),
            Measure::IdentifierBytes => mul_option(self.source.bytes, 4),
        }
    }
}

impl Measured for PolarityEntry {
    /// A resolution adds no relation; reports keep both source names.
    open spec fn measure(&self, m: Measure) -> nat {
        match m {
            Measure::IdentifierBytes => self.source.bytes as nat + self.axial_source.bytes as nat,
            _ => 0,
        }
    }

    fn measured(&self, m: Measure) -> (r: Option<usize>) {
        match m {
            Measure::IdentifierBytes => add_options(
                Some(self.source.bytes),
                Some(self.axial_source.bytes),
            ),
            _ => Some(0),
        }
    }
}

/// Advancing a running sum by `a` and then by `b` is advancing it by `a + b`.
proof fn lemma_add_to_twice(t: Option<usize>, a: nat, b: nat)
    ensures
        add_to(add_to(t, a), b) == add_to(t, a + b),
{
}

/// The sum of measure `m` over every declared input of `inv`.
pub open spec fn inventory_total(inv: ProblemInventory, m: Measure) -> nat {
    total(inv.observations@, m) + total(inv.shared_level_sets@, m) + total(
        inv.covariance_groups@,
        m,
    ) + total(inv.additive_field_gauges@, m) + total(inv.field_value_bounds@, m) + total(
        inv.directional_derivative_intervals@,
        m,
    ) + total(inv.field_separation_intervals@, m) + total(inv.point_to_level_set_relations@, m)
        + total(inv.shared_level_set_relations@, m) + total(inv.directed_normals@, m) + total(
        inv.axial_normals@,
        m,
    ) + total(inv.polarity_resolutions@, m)
}

/// The hard scalar relations `inv` declares.
pub open spec fn hard_relations(inv: ProblemInventory) -> nat {
    inventory_total(inv, Measure::HardRelations)
}

/// The soft scalar relations `inv` declares.
pub open spec fn soft_relations(inv: ProblemInventory) -> nat {
    inventory_total(inv, Measure::SoftRelations)
}

/// The quadratic objective terms `inv` declares.
pub open spec fn quadratic_terms(inv: ProblemInventory) -> nat {
    inventory_total(inv, Measure::QuadraticTerms)
}

/// The linear objective terms `inv` declares.
pub open spec fn linear_terms(inv: ProblemInventory) -> nat {
    inventory_total(inv, Measure::LinearTerms)
}

/// The bytes of caller identifiers that reports over `inv` retain.
pub open spec fn identifier_bytes(inv: ProblemInventory) -> nat {
    inventory_total(inv, Measure::IdentifierBytes)
}

/// The sum of measure `m` over `inv`, or `None` when it does not fit.
fn tally_inventory(inv: &ProblemInventory, m: Measure) -> (r: Option<usize>)
    ensures
        r == bounded(inventory_total(*inv, m) as int),
{
    let ghost mut sum: nat = 0;
    let t = tally(&inv.observations, m, Some(0));
    proof {
        sum = total(inv.observations@, m);
    }
    let t2 = tally(&inv.shared_level_sets, m, t);
    proof {
        lemma_add_to_twice(Some(0), sum, total(inv.shared_level_sets@, m));
        sum = sum + total(inv.shared_level_sets@, m);
    }
    let t3 = tally(&inv.covariance_groups, m, t2);
    proof {
        lemma_add_to_twice(Some(0), sum, total(inv.covariance_groups@, m));
        sum = sum + total(inv.covariance_groups@, m);
    }
    let t4 = tally(&inv.additive_field_gauges, m, t3);
    proof {
        lemma_add_to_twice(Some(0), sum, total(inv.additive_field_gauges@, m));
        sum = sum + total(inv.additive_field_gauges@, m);
    }
    let t5 = tally(&inv.field_value_bounds, m, t4);
    proof {
        lemma_add_to_twice(Some(0), sum, total(inv.field_value_bounds@, m));
        sum = sum + total(inv.field_value_bounds@, m);
    }
    let t6 = tally(&inv.directional_derivative_intervals, m, t5);
    proof {
        lemma_add_to_twice(Some(0), sum, total(inv.directional_derivative_intervals@, m));
        sum = sum + total(inv.directional_derivative_intervals@, m);
    }
    let t7 = tally(&inv.field_separation_intervals, m, t6);
    proof {
        lemma_add_to_twice(Some(0), sum, total(inv.field_separation_intervals@, m));
        sum = sum + total(inv.field_separation_intervals@, m);
    }
    let t8 = tally(&inv.point_to_level_set_relations, m, t7);
    proof {
        lemma_add_to_twice(Some(0), sum, total(inv.point_to_level_set_relations@, m));
        sum = sum + total(inv.point_to_level_set_relations@, m);
    }
    let t9 = tally(&inv.shared_level_set_relations, m, t8);
    proof {
        lemma_add_to_twice(Some(0), sum, total(inv.shared_level_set_relations@, m));
        sum = sum + total(inv.shared_level_set_relations@, m);
    }
    let t10 = tally(&inv.directed_normals, m, t9);
    proof {
        lemma_add_to_twice(Some(0), sum, total(inv.directed_normals@, m));
        sum = sum + total(inv.directed_normals@, m);
    }
    let t11 = tally(&inv.axial_normals, m, t10);
    proof {
        lemma_add_to_twice(Some(0), sum, total(inv.axial_normals@, m));
        sum = sum + total(inv.axial_normals@, m);
    }
    let t12 = tally(&inv.polarity_resolutions, m, t11);
    proof {
        lemma_add_to_twice(Some(0), sum, total(inv.polarity_resolutions@, m));
        sum = sum + total(inv.polarity_resolutions@, m);
    }
    t12
}

/// Hard and soft scalar relation counts of `inv`, or `None` when either
/// does not fit in `usize`.
pub fn scalar_relation_counts(inv: &ProblemInventory) -> (counts: Option<ScalarRelationCounts>)
    ensures
        counts is Some <==> hard_relations(*inv) <= usize::MAX && soft_relations(*inv)
            <= usize::MAX,
        counts matches Some(c) ==> c.hard == hard_relations(*inv) && c.soft == soft_relations(
            *inv,
        ),
{
    let hard = tally_inventory(inv, Measure::HardRelations);
    let soft = tally_inventory(inv, Measure::SoftRelations);
    match hard {
        Some(h) => match soft {
            Some(s) => Some(ScalarRelationCounts { hard: h, soft: s }),
            None => None,
        },
        None => None,
    }
}

/// Quadratic objective terms of `inv`, or `None` when they do not fit.
pub fn quadratic_objective_term_count(inv: &ProblemInventory) -> (count: Option<usize>)
    ensures
        count == bounded(quadratic_terms(*inv) as int),
{
    tally_inventory(inv, Measure::QuadraticTerms)
}

/// Linear objective terms of `inv`, or `None` when they do not fit.
pub fn linear_objective_term_count(inv: &ProblemInventory) -> (count: Option<usize>)
    ensures
        count == bounded(linear_terms(*inv) as int),
{
    tally_inventory(inv, Measure::LinearTerms)
}

/// Bytes of caller identifiers that reports over `inv` retain, or `None`
/// when they do not fit.
pub fn source_identifier_bytes(inv: &ProblemInventory) -> (bytes: Option<usize>)
    ensures
        bytes == bounded(identifier_bytes(*inv) as int),
{
    tally_inventory(inv, Measure::IdentifierBytes)
}

} // verus!
