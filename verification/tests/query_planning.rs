use georbf::model::{
    plan_query_capacity, QueryError, QueryErrorReason, QueryPlanningFailure, QuerySampleFailure,
    FIELD_SAMPLE_BYTES, QUERY_SCRATCH_LIMIT_BYTES, RECOVERED_SAMPLE_BYTES,
};

#[test]
fn query_planning_admits_the_guarantee_and_rejects_the_first_over_limit_batch() {
    let guarantee = plan_query_capacity(100_000)
        .expect("100,000 value-gradient samples fit the query scratch envelope");
    assert!(guarantee.scratch_bytes <= QUERY_SCRATCH_LIMIT_BYTES);
    assert!(guarantee.chunk_len > 0);
    assert!(guarantee.chunk_scratch_bytes > 0);

    let bytes_per_sample = FIELD_SAMPLE_BYTES;
    let bytes_per_recovered_sample = RECOVERED_SAMPLE_BYTES;
    assert_eq!(
        guarantee.scratch_bytes,
        100_000 * bytes_per_sample + guarantee.chunk_scratch_bytes
    );
    let maximum_points =
        ((QUERY_SCRATCH_LIMIT_BYTES - bytes_per_recovered_sample) / bytes_per_sample) as usize;
    let boundary = plan_query_capacity(maximum_points)
        .expect("the largest batch retaining one query-result slot remains admissible");
    assert!(boundary.scratch_bytes <= QUERY_SCRATCH_LIMIT_BYTES);

    let first_rejected_bytes =
        (maximum_points as u64 + 1) * bytes_per_sample + bytes_per_recovered_sample;
    assert!(first_rejected_bytes > QUERY_SCRATCH_LIMIT_BYTES);

    assert_eq!(
        plan_query_capacity(maximum_points + 1),
        Err(QueryPlanningFailure::ScratchLimitExceeded {
            planned_scratch_bytes: first_rejected_bytes,
            limit_bytes: QUERY_SCRATCH_LIMIT_BYTES,
        })
    );
}

#[test]
fn query_capacity_failure_is_exposed_without_a_point_index() {
    let failure = plan_query_capacity(usize::MAX)
        .expect_err("unrepresentable batch scratch is rejected by checked planning");
    let error = QueryError::from_planning_failure(failure);

    assert_eq!(error.reason(), QueryErrorReason::CapacityExceeded);
    assert_eq!(error.point_index(), None);
    assert_eq!(error.planned_scratch_bytes(), None);
    assert_eq!(error.scratch_limit_bytes(), Some(QUERY_SCRATCH_LIMIT_BYTES));
}

#[test]
fn empty_batch_plans_nothing() {
    let plan = plan_query_capacity(0).unwrap();
    assert_eq!(plan.output_capacity, 0);
    assert_eq!(plan.scratch_bytes, 0);
    assert_eq!(plan.chunk_len, 0);
    assert_eq!(plan.chunk_scratch_bytes, 0);
}

#[test]
fn small_batch_uses_one_chunk_of_the_whole_batch() {
    let plan = plan_query_capacity(7).unwrap();
    assert_eq!(plan.output_capacity, 7);
    assert_eq!(plan.chunk_len, 7);
    assert_eq!(plan.chunk_scratch_bytes, 7 * 40);
    assert_eq!(plan.scratch_bytes, 7 * 32 + 7 * 40);
}

#[test]
fn large_batch_uses_target_chunks() {
    let plan = plan_query_capacity(100_000).unwrap();
    assert_eq!(plan.chunk_len, 65536 / 40);
    assert_eq!(plan.chunk_scratch_bytes, (65536 / 40) * 40);
    assert_eq!(plan.scratch_bytes, 100_000 * 32 + (65536 / 40) * 40);
}

#[test]
fn over_limit_batch_reports_its_planned_scratch() {
    let points = 10_000_000usize;
    let failure = plan_query_capacity(points).unwrap_err();
    assert_eq!(
        failure,
        QueryPlanningFailure::ScratchLimitExceeded {
            planned_scratch_bytes: 10_000_000 * 32 + 40,
            limit_bytes: 268_435_456,
        }
    );
    let error = QueryError::from_planning_failure(failure);
    assert_eq!(error.planned_scratch_bytes(), Some(10_000_000 * 32 + 40));
    assert_eq!(error.scratch_limit_bytes(), Some(268_435_456));
    assert_eq!(error.message(), "logical query batch exceeds the query scratch capacity");
}

#[test]
fn sample_failures_map_to_reasons_and_take_a_batch_index() {
    let error = QueryError::from_sample_failure(QuerySampleFailure::NonFiniteResult);
    assert_eq!(error.reason(), QueryErrorReason::NonFiniteResult);
    assert_eq!(error.point_index(), None);
    assert_eq!(error.message(), "model evaluation did not produce finite observables");
    let indexed = error.with_point_index(42);
    assert_eq!(indexed.point_index(), Some(42));
    assert_eq!(indexed.reason(), QueryErrorReason::NonFiniteResult);
    assert_eq!(
        indexed.message(),
        "model evaluation at batch index 42 did not produce finite observables"
    );
    let indeterminate =
        QueryError::from_sample_failure(QuerySampleFailure::NumericalIndeterminate);
    assert_eq!(indeterminate.reason(), QueryErrorReason::NumericalIndeterminate);
    assert_eq!(
        indeterminate.with_point_index(0).message(),
        "model evaluation at batch index 0 remained numerically indeterminate"
    );
    assert_eq!(indeterminate.scratch_limit_bytes(), None);
}
