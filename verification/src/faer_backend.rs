//! Identity and fixed settings of the dense symmetric-indefinite backend.
use crate::diagnostics::{
    legacy_feature_slot, string_views, text_views, BackendAttemptSettings, BackendFingerprint,
    BackendFingerprintParts, SolveAttemptKind,
};
use vstd::prelude::*;

verus! {

/// Name of the backend crate.
pub const CRATE_NAME: &'static str = "faer";

/// Version of the backend crate.
pub const CRATE_VERSION: &'static str = "0.24.4";

/// First enabled backend feature.
pub const FEATURE_LINALG: &'static str = "linalg";

/// Second enabled backend feature.
pub const FEATURE_STD: &'static str = "std";

/// The factorization algorithm.
pub const ALGORITHM: &'static str = "LBLT Bunch-Kaufman";

/// The pivoting strategy of the factorization.
pub const PIVOTING: &'static str = "PartialDiag";

/// The factorization block size.
pub const BLOCK_SIZE: usize = 64;

/// The dimension from which the backend would parallelize.
pub const PARALLELISM_THRESHOLD: usize = 16384;

/// The thread count requested from the backend.
pub const REQUESTED_THREADS: usize = 1;

/// Where factorization workspace requirements come from.
pub const FACTOR_WORKSPACE_SOURCE: &'static str = "faer::linalg::cholesky::lblt::factor::cholesky_in_place_scratch";

/// Calls `faer::Par::degree` on `faer::Par::Seq`, the sequential parallelism
/// that every factorization is run with. faer returns one thread for
/// `Par::Seq`; that is all this contract claims.
#[verifier::external_body]
fn sequential_parallelism_degree() -> (degree: usize)
    ensures
        degree == 1,
{
    faer::Par::Seq.degree()
}

/// The fingerprint of a backend attempt running `algorithm` on the given
/// target. The actual thread count is the degree that the backend reports
/// for its sequential parallelism.
pub fn backend_fingerprint(algorithm: &'static str, target_arch: &'static str, target_os: &'static str) -> (fingerprint: BackendFingerprint)
    ensures
        fingerprint.schema_version_spec() == 1,
        fingerprint.crate_name_spec() == CRATE_NAME@,
        fingerprint.crate_version_spec() == CRATE_VERSION@,
        fingerprint.first_feature_slot_spec() == FEATURE_LINALG@,
        fingerprint.second_feature_slot_spec() == FEATURE_STD@,
        string_views(fingerprint.enabled_features_spec()) == seq![FEATURE_LINALG@, FEATURE_STD@],
        fingerprint.algorithm_spec() == algorithm@,
        fingerprint.target_arch_spec() == target_arch@,
        fingerprint.target_os_spec() == target_os@,
        fingerprint.requested_threads_spec() == REQUESTED_THREADS,
        fingerprint.actual_threads_spec() == 1,
{
    let mut features: Vec<&'static str> = Vec::new();
    features.push(FEATURE_LINALG);
    features.push(FEATURE_STD);
    let actual_threads = sequential_parallelism_degree();
    proof {
        assert(text_views(features@) =~= seq![FEATURE_LINALG@, FEATURE_STD@]);
        assert(legacy_feature_slot(text_views(features@), 0) == FEATURE_LINALG@);
        assert(legacy_feature_slot(text_views(features@), 1) == FEATURE_STD@);
    }
    BackendFingerprint::new(
        BackendFingerprintParts {
            schema_version: 1,
            crate_name: CRATE_NAME,
            crate_version: CRATE_VERSION,
            features,
            algorithm,
            target_arch,
            target_os,
            requested_threads: REQUESTED_THREADS,
            actual_threads,
        },
    )
}

/// The settings of a factorization attempt with the backend's fixed
/// pivoting, block size, parallelism threshold and workspace source.
pub fn lblt_attempt_settings(maximum_refinement_steps: usize) -> (settings: BackendAttemptSettings)
    ensures
        settings.kind_spec() == SolveAttemptKind::BunchKaufmanRefinement,
        settings.pivoting_spec() == Some(PIVOTING@),
        settings.block_size_spec() == Some(BLOCK_SIZE),
        settings.parallelism_threshold_spec() == Some(PARALLELISM_THRESHOLD),
        settings.factor_workspace_source_spec() == Some(FACTOR_WORKSPACE_SOURCE@),
        settings.maximum_refinement_steps_spec() == Some(maximum_refinement_steps),
        settings.settings_id_spec() is None,
        settings.left_vectors_spec() is None,
        settings.right_vectors_spec() is None,
{
    BackendAttemptSettings::lblt(
        PIVOTING,
        BLOCK_SIZE,
        PARALLELISM_THRESHOLD,
        FACTOR_WORKSPACE_SOURCE,
        maximum_refinement_steps,
    )
}

} // verus!
