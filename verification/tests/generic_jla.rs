use vckss_core::error::{BackendError, ErrorCode};
use vckss_core::generic_jla::spectrum_batches::{extra_bytes, width};
use vckss_core::generic_jla::{
    admit_memory, checked_product, checked_sum, group_rows, index_vector, lookup_batch_forecast,
    memory_facts, nonestimable, nonfinite, preserve_break, repeated, resource, row_ranks,
    DeletionIndex,
};
use vckss_core::interrupt::NeverInterrupt;
use vckss_core::jla::{all_unique, resource_error};

const QUEUE_METADATA_OF_EIGHT_JOBS: u64 = 1_024;

#[test]
fn generic_allocation_overflow_is_typed() {
    let error = repeated(
        usize::MAX,
        0_u64,
        "impossible generic allocation",
        &mut NeverInterrupt,
        "generic_jla_allocation_test",
    )
    .expect_err("overflowing allocation must fail before reserving");
    assert!(matches!(
        error.code,
        ErrorCode::ResourceLimit | ErrorCode::AllocationFailed
    ));
}

#[test]
fn spectrum_width_and_memory_are_capacity_bound() {
    for requested in [1, 2, 3, 4, 7, 8, 14, 28, 64, usize::MAX] {
        assert_eq!(width(requested, None, 64), None);
        for capacity in [1, 2, 3, 4, 7, 8, 14, 28, 64] {
            let selected = requested.min(capacity).min(8);
            assert_eq!(width(requested, Some(capacity), 1), None);
            assert_eq!(width(requested, Some(capacity), 2), None);
            assert_eq!(
                width(requested, Some(capacity), 3),
                (selected >= 4).then_some(selected)
            );
        }
    }
    assert_eq!(
        extra_bytes(u64::MAX, u64::MAX, false, QUEUE_METADATA_OF_EIGHT_JOBS).unwrap(),
        0
    );
    assert!(extra_bytes(u64::MAX, 1, true, QUEUE_METADATA_OF_EIGHT_JOBS).is_err());
    assert!(extra_bytes(u64::MAX / 128, 0, true, QUEUE_METADATA_OF_EIGHT_JOBS).is_err());
    assert_eq!(
        extra_bytes(100, 20, true, QUEUE_METADATA_OF_EIGHT_JOBS).unwrap(),
        140 * 32 * 8 + 8192 + QUEUE_METADATA_OF_EIGHT_JOBS
    );
}

#[test]
fn repeated_and_index_vectors_have_the_requested_contents() {
    let values = repeated(5, 7_u32, "values", &mut NeverInterrupt, "test").unwrap();
    assert_eq!(values, vec![7; 5]);
    let indices = index_vector(4, &mut NeverInterrupt, "test").unwrap();
    assert_eq!(indices, vec![0, 1, 2, 3]);
    assert!(index_vector(0, &mut NeverInterrupt, "test").unwrap().is_empty());
}

#[test]
fn checked_forecasts_are_exact_or_typed() {
    assert_eq!(checked_product(&[3, 5, 7], "test").unwrap(), 105);
    assert_eq!(checked_product(&[], "test").unwrap(), 1);
    assert_eq!(checked_product(&[u64::MAX, 2], "test").unwrap_err().code, ErrorCode::ResourceLimit);
    assert_eq!(checked_product(&[u64::MAX, 0], "test").unwrap(), 0);
    assert_eq!(checked_product(&[0, u64::MAX, 2], "test").unwrap(), 0);
    assert_eq!(checked_sum(&[1, 2, 3]).unwrap(), 6);
    assert_eq!(checked_sum(&[u64::MAX, 1]).unwrap_err().code, ErrorCode::ResourceLimit);
    assert!(admit_memory(10, 10).is_ok());
    assert_eq!(admit_memory(11, 10).unwrap_err().code, ErrorCode::ResourceLimit);
}

#[test]
fn forecast_lookup_takes_the_first_matching_width() {
    let table = [(1, 100), (4, 400), (4, 999)];
    assert_eq!(lookup_batch_forecast(&table, 4).unwrap(), 400);
    assert_eq!(
        lookup_batch_forecast(&table, 8).unwrap_err().code,
        ErrorCode::InternalInvariant
    );
}

#[test]
fn deletion_groups_report_rows_and_widest_block() {
    let index = DeletionIndex {
        ptr: vec![0, 2, 2, 5],
        items: vec![4, 1, 0, 3, 2],
    };
    assert_eq!(
        memory_facts(&index, &mut NeverInterrupt).unwrap().maximum_deletion_block,
        3
    );
    assert_eq!(group_rows(&index, 0, &mut NeverInterrupt, "test").unwrap(), vec![4, 1]);
    assert!(group_rows(&index, 1, &mut NeverInterrupt, "test").unwrap().is_empty());
    assert_eq!(group_rows(&index, 2, &mut NeverInterrupt, "test").unwrap(), vec![0, 3, 2]);
    let reversed = DeletionIndex {
        ptr: vec![0, 3, 1],
        items: vec![0, 1, 2],
    };
    assert_eq!(
        memory_facts(&reversed, &mut NeverInterrupt).unwrap_err().code,
        ErrorCode::ResourceLimit
    );
    assert_eq!(
        group_rows(&reversed, 1, &mut NeverInterrupt, "test").unwrap_err().code,
        ErrorCode::InternalInvariant
    );
}

#[test]
fn row_ranks_invert_a_permutation() {
    assert_eq!(row_ranks(&[2, 0, 1]), vec![2, 3, 1]);
    assert!(row_ranks(&[]).is_empty());
}

#[test]
fn uniqueness_is_decided_after_sorting() {
    assert!(all_unique(&[5, 1, 9, 3], &mut NeverInterrupt).unwrap());
    assert!(!all_unique(&[5, 1, 9, 1], &mut NeverInterrupt).unwrap());
    assert!(all_unique(&[], &mut NeverInterrupt).unwrap());
    assert_eq!(resource_error("x").code, ErrorCode::ResourceLimit);
}

#[test]
fn estimator_errors_are_typed_and_breaks_survive() {
    assert_eq!(resource("x").code, ErrorCode::ResourceLimit);
    assert_eq!(nonfinite("x").code, ErrorCode::CorrectionNonFinite);
    assert_eq!(nonestimable("x").code, ErrorCode::NonestimableDeletion);
    let user_break = BackendError::new(ErrorCode::UserBreak, "phase", "stop");
    let kept = preserve_break(user_break, ErrorCode::InvalidInput, "replaced");
    assert_eq!(kept.code, ErrorCode::UserBreak);
    assert_eq!(kept.phase, "phase");
    let other = BackendError::new(ErrorCode::ResourceLimit, "phase", "big");
    let replaced = preserve_break(other, ErrorCode::InvalidInput, "replaced");
    assert_eq!(replaced.code, ErrorCode::InvalidInput);
    assert_eq!(replaced.phase, "generic_jla");
}

#[test]
fn group_rows_past_the_items_is_a_resource_limit() {
    let overrun = DeletionIndex {
        ptr: vec![0, 2, 5],
        items: vec![0, 1, 2],
    };
    assert_eq!(group_rows(&overrun, 0, &mut NeverInterrupt, "test").unwrap(), vec![0, 1]);
    assert_eq!(
        group_rows(&overrun, 1, &mut NeverInterrupt, "test").unwrap_err().code,
        ErrorCode::ResourceLimit
    );
}
