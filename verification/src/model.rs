//! Atomic batch-query planning and query failures of solved models.
use crate::text::{decimal, push_decimal};
use vstd::prelude::*;

verus! {

/// The scratch envelope of one logical query batch, in bytes.
pub const QUERY_SCRATCH_LIMIT_BYTES: u64 = 268435456;

/// The scratch a single evaluation chunk aims for, in bytes.
pub const QUERY_CHUNK_TARGET_BYTES: u64 = 65536;

/// Bytes held by one returned value-and-gradient sample: a value and a
/// three-component gradient of binary64 numbers.
pub const FIELD_SAMPLE_BYTES: u64 = 32;

/// Bytes held by one per-point evaluation result in chunk scratch: a sample
/// of four binary64 numbers behind a result discriminant.
pub const RECOVERED_SAMPLE_BYTES: u64 = 40;

/// A checked plan for one atomic batch query.
#[derive(Debug, Clone, Copy, PartialEq, Eq, Structural)]
pub struct QueryPlan {
    /// Number of samples the output vector is allocated for.
    pub output_capacity: usize,
    /// Peak scratch: the output plus one chunk of per-point results.
    pub scratch_bytes: u64,
    /// Points evaluated per chunk.
    pub chunk_len: usize,
    /// Scratch held by one chunk of per-point results.
    pub chunk_scratch_bytes: u64,
}

/// Why a batch could not be planned.
#[derive(Debug, Clone, Copy, PartialEq, Eq, Structural)]
pub enum QueryPlanningFailure {
    /// Checked size arithmetic overflowed.
    ArithmeticOverflow,
    /// The smallest admissible plan exceeds the scratch envelope.
    ScratchLimitExceeded { planned_scratch_bytes: u64, limit_bytes: u64 },
}

/// Bytes of output for `points` samples.
pub open spec fn output_bytes(points: nat) -> int {
    points * FIELD_SAMPLE_BYTES
}

/// The smallest admissible scratch for a non-empty batch: its output and
/// one per-point result.
pub open spec fn minimum_scratch_bytes(points: nat) -> int {
    output_bytes(points) + RECOVERED_SAMPLE_BYTES
}

/// The chunk length for a non-empty admissible batch of `points`: the
/// target chunk, capped by the scratch left after the output, at least one
/// point, and at most the batch.
pub open spec fn planned_chunk_len(points: nat) -> int {
    let target = QUERY_CHUNK_TARGET_BYTES as int / RECOVERED_SAMPLE_BYTES as int;
    let available = (QUERY_SCRATCH_LIMIT_BYTES - output_bytes(points)) / RECOVERED_SAMPLE_BYTES as int;
    let capped = if target < available {
        target
    } else {
        available
    };
    let at_least_one = if capped < 1 {
        1
    } else {
        capped
    };
    if points < at_least_one {
        points as int
    } else {
        at_least_one
    }
}

/// Plans output and chunk scratch for an atomic batch of `point_count`
/// queries, or explains why the batch cannot be admitted.
pub fn plan_query_capacity(point_count: usize) -> (plan: Result<QueryPlan, QueryPlanningFailure>)
    ensures
        point_count == 0 ==> plan == Ok::<QueryPlan, QueryPlanningFailure>(
            QueryPlan { output_capacity: 0, scratch_bytes: 0, chunk_len: 0, chunk_scratch_bytes: 0 },
        ),
        point_count > 0 && minimum_scratch_bytes(point_count as nat) > u64::MAX ==> plan
            == Err::<QueryPlan, QueryPlanningFailure>(QueryPlanningFailure::ArithmeticOverflow),
        point_count > 0 && QUERY_SCRATCH_LIMIT_BYTES < minimum_scratch_bytes(point_count as nat)
            <= u64::MAX ==> plan == Err::<QueryPlan, QueryPlanningFailure>(
            QueryPlanningFailure::ScratchLimitExceeded {
                planned_scratch_bytes: minimum_scratch_bytes(point_count as nat) as u64,
                limit_bytes: QUERY_SCRATCH_LIMIT_BYTES,
            },
        ),
        point_count > 0 && minimum_scratch_bytes(point_count as nat) <= QUERY_SCRATCH_LIMIT_BYTES
            ==> (plan matches Ok(p) && p.output_capacity == point_count && p.chunk_len
            == planned_chunk_len(point_count as nat) && p.chunk_scratch_bytes == p.chunk_len
            * RECOVERED_SAMPLE_BYTES && p.scratch_bytes == output_bytes(point_count as nat)
            + p.chunk_scratch_bytes),
{
    let points = point_count as u64;
    let output_bytes = match points.checked_mul(FIELD_SAMPLE_BYTES) {
        Some(bytes) => bytes,
        None => {
            return Err(QueryPlanningFailure::ArithmeticOverflow);
        },
    };
    if points == 0 {
        return Ok(
            QueryPlan { output_capacity: 0, scratch_bytes: 0, chunk_len: 0, chunk_scratch_bytes: 0 },
        );
    }
    let minimum_scratch_bytes = match output_bytes.checked_add(RECOVERED_SAMPLE_BYTES) {
        Some(bytes) => bytes,
        None => {
            return Err(QueryPlanningFailure::ArithmeticOverflow);
        },
    };
    if minimum_scratch_bytes > QUERY_SCRATCH_LIMIT_BYTES {
        return Err(
            QueryPlanningFailure::ScratchLimitExceeded {
                planned_scratch_bytes: minimum_scratch_bytes,
                limit_bytes: QUERY_SCRATCH_LIMIT_BYTES,
            },
        );
    }
    let available_chunk_bytes = QUERY_SCRATCH_LIMIT_BYTES - output_bytes;
    let maximum_chunk_len = available_chunk_bytes / RECOVERED_SAMPLE_BYTES;
    let target_chunk_len = QUERY_CHUNK_TARGET_BYTES / RECOVERED_SAMPLE_BYTES;
    let target_chunk_len = if target_chunk_len < maximum_chunk_len {
        target_chunk_len
    } else {
        maximum_chunk_len
    };
    let target_chunk_len: u64 = if target_chunk_len < 1 {
        1
    } else {
        target_chunk_len
    };
    let target_chunk_len = target_chunk_len as usize;
    let chunk_len = if point_count < target_chunk_len {
        point_count
    } else {
        target_chunk_len
    };
    let chunk_scratch_bytes = (chunk_len as u64) * RECOVERED_SAMPLE_BYTES;
    let scratch_bytes = output_bytes + chunk_scratch_bytes;
    Ok(QueryPlan { output_capacity: point_count, scratch_bytes, chunk_len, chunk_scratch_bytes })
}

/// Every admitted non-empty plan stays inside the scratch envelope, and its
/// chunks hold between one point and the whole batch.
pub proof fn lemma_admitted_plan_within_envelope(point_count: usize, plan: QueryPlan)
    requires
        point_count > 0,
        minimum_scratch_bytes(point_count as nat) <= QUERY_SCRATCH_LIMIT_BYTES,
        plan.output_capacity == point_count,
        plan.chunk_len == planned_chunk_len(point_count as nat),
        plan.chunk_scratch_bytes == plan.chunk_len * RECOVERED_SAMPLE_BYTES,
        plan.scratch_bytes == output_bytes(point_count as nat) + plan.chunk_scratch_bytes,
    ensures
        plan.scratch_bytes <= QUERY_SCRATCH_LIMIT_BYTES,
        1 <= plan.chunk_len <= point_count,
{
    let n = point_count as nat;
    let available = (QUERY_SCRATCH_LIMIT_BYTES - output_bytes(n)) / RECOVERED_SAMPLE_BYTES as int;
    assert(available >= 1);
    assert(plan.chunk_len <= available);
    assert(plan.chunk_len * RECOVERED_SAMPLE_BYTES <= available * RECOVERED_SAMPLE_BYTES);
}

/// Why one model evaluation could not be certified.
#[derive(Debug, Clone, Copy, PartialEq, Eq, Structural)]
pub enum QuerySampleFailure {
    /// The evaluation produced a non-finite value or gradient component.
    NonFiniteResult,
    /// Bounded precision escalation could not certify the result.
    NumericalIndeterminate,
}

/// Why a model query was rejected.
#[derive(Debug, Clone, Copy, PartialEq, Eq, Structural)]
#[non_exhaustive]
pub enum QueryErrorReason {
    /// Evaluation overflowed or otherwise produced a non-finite observable.
    NonFiniteResult,
    /// Bounded precision escalation could not certify a finite observable.
    NumericalIndeterminate,
    /// Checked atomic-batch scratch planning exceeded its resource envelope.
    CapacityExceeded,
}

/// Atomic failure of a model query.
#[derive(Debug, Clone, Copy, PartialEq, Eq, Structural)]
pub struct QueryError {
    reason: QueryErrorReason,
    point_index: Option<usize>,
    planned_scratch_bytes: Option<u64>,
    scratch_limit_bytes: Option<u64>,
}

impl QueryError {
    /// The structured query-failure reason.
    pub closed spec fn reason_spec(self) -> QueryErrorReason {
        self.reason
    }

    /// The first failing logical-batch index, if any.
    pub closed spec fn point_index_spec(self) -> Option<usize> {
        self.point_index
    }

    /// The planned scratch size, if it was representable.
    pub closed spec fn planned_scratch_bytes_spec(self) -> Option<u64> {
        self.planned_scratch_bytes
    }

    /// The scratch limit, for a capacity failure.
    pub closed spec fn scratch_limit_bytes_spec(self) -> Option<u64> {
        self.scratch_limit_bytes
    }

    /// Returns the structured query-failure reason.
    pub fn reason(self) -> (reason: QueryErrorReason)
        ensures
            reason == self.reason_spec(),
    {
        self.reason
    }

    /// Returns the first failing logical-batch index, or `None` for a
    /// single-point query.
    pub fn point_index(self) -> (index: Option<usize>)
        ensures
            index == self.point_index_spec(),
    {
        self.point_index
    }

    /// Returns the planned scratch size when checked arithmetic could
    /// represent it.
    pub fn planned_scratch_bytes(self) -> (bytes: Option<u64>)
        ensures
            bytes == self.planned_scratch_bytes_spec(),
    {
        self.planned_scratch_bytes
    }

    /// Returns the query scratch limit for a capacity failure.
    pub fn scratch_limit_bytes(self) -> (bytes: Option<u64>)
        ensures
            bytes == self.scratch_limit_bytes_spec(),
    {
        self.scratch_limit_bytes
    }

    /// The same failure, attributed to logical-batch index `point_index`.
    pub fn with_point_index(self, point_index: usize) -> (error: Self)
        ensures
            error.reason_spec() == self.reason_spec(),
            error.point_index_spec() == Some(point_index),
            error.planned_scratch_bytes_spec() == self.planned_scratch_bytes_spec(),
            error.scratch_limit_bytes_spec() == self.scratch_limit_bytes_spec(),
    {
        let mut error = self;
        error.point_index = Some(point_index);
        error
    }

    /// The query failure for one uncertified evaluation.
    pub fn from_sample_failure(failure: QuerySampleFailure) -> (error: Self)
        ensures
            error.reason_spec() == (match failure {
                QuerySampleFailure::NonFiniteResult => QueryErrorReason::NonFiniteResult,
                QuerySampleFailure::NumericalIndeterminate => QueryErrorReason::NumericalIndeterminate,
            }),
            error.point_index_spec() is None,
            error.planned_scratch_bytes_spec() is None,
            error.scratch_limit_bytes_spec() is None,
    {
        Self {
            reason: match failure {
                QuerySampleFailure::NonFiniteResult => QueryErrorReason::NonFiniteResult,
                QuerySampleFailure::NumericalIndeterminate => QueryErrorReason::NumericalIndeterminate,
            },
            point_index: None,
            planned_scratch_bytes: None,
            scratch_limit_bytes: None,
        }
    }

    /// The capacity failure for a batch that could not be planned.
    pub fn from_planning_failure(failure: QueryPlanningFailure) -> (error: Self)
        ensures
            error.reason_spec() == QueryErrorReason::CapacityExceeded,
            error.point_index_spec() is None,
            error.planned_scratch_bytes_spec() == (match failure {
                QueryPlanningFailure::ArithmeticOverflow => None,
                QueryPlanningFailure::ScratchLimitExceeded { planned_scratch_bytes, .. } => Some(
                    planned_scratch_bytes,
                ),
            }),
            error.scratch_limit_bytes_spec() == Some(
                match failure {
                    QueryPlanningFailure::ArithmeticOverflow => QUERY_SCRATCH_LIMIT_BYTES,
                    QueryPlanningFailure::ScratchLimitExceeded { limit_bytes, .. } => limit_bytes,
                },
            ),
    {
        let (planned_scratch_bytes, scratch_limit_bytes) = match failure {
            QueryPlanningFailure::ArithmeticOverflow => (None, QUERY_SCRATCH_LIMIT_BYTES),
            QueryPlanningFailure::ScratchLimitExceeded { planned_scratch_bytes, limit_bytes } => (
                Some(planned_scratch_bytes),
                limit_bytes,
            ),
        };
        Self {
            reason: QueryErrorReason::CapacityExceeded,
            point_index: None,
            planned_scratch_bytes,
            scratch_limit_bytes: Some(scratch_limit_bytes),
        }
    }
}

/// The display text of a query failure.
pub open spec fn query_error_text(error: QueryError) -> Seq<char> {
    match (error.reason_spec(), error.point_index_spec()) {
        (QueryErrorReason::NonFiniteResult, Some(index)) => "model evaluation at batch index "@
            + decimal(index as nat) + " did not produce finite observables"@,
        (QueryErrorReason::NonFiniteResult, None) => "model evaluation did not produce finite observables"@,
        (QueryErrorReason::NumericalIndeterminate, Some(index)) => "model evaluation at batch index "@
            + decimal(index as nat) + " remained numerically indeterminate"@,
        (QueryErrorReason::NumericalIndeterminate, None) => "model evaluation remained numerically indeterminate"@,
        (QueryErrorReason::CapacityExceeded, _) => "logical query batch exceeds the query scratch capacity"@,
    }
}

impl QueryError {
    /// The display text of this failure.
    pub fn message(self) -> (text: String)
        ensures
            text@ == query_error_text(self),
    {
        match (self.reason, self.point_index) {
            (QueryErrorReason::NonFiniteResult, Some(index)) => {
                let mut text = String::from_str("model evaluation at batch index ");
                push_decimal(&mut text, index);
                text.append(" did not produce finite observables");
                text
            },
            (QueryErrorReason::NonFiniteResult, None) => String::from_str(
                "model evaluation did not produce finite observables",
            ),
            (QueryErrorReason::NumericalIndeterminate, Some(index)) => {
                let mut text = String::from_str("model evaluation at batch index ");
                push_decimal(&mut text, index);
                text.append(" remained numerically indeterminate");
                text
            },
            (QueryErrorReason::NumericalIndeterminate, None) => String::from_str(
                "model evaluation remained numerically indeterminate",
            ),
            (QueryErrorReason::CapacityExceeded, _) => String::from_str(
                "logical query batch exceeds the query scratch capacity",
            ),
        }
    }
}

} // verus!
