//! Capacity of cross-target spectrum packing and its additive memory charge.

use vstd::prelude::*;

use crate::error::Result;
use crate::generic_jla::{checked_product, checked_sum, product_prefix, sum_prefix};

verus! {

/// Number of reported variance-component targets.
pub const REPORTED_TARGETS: usize = 4;

/// Pair width for interleaved targets: at most the capacity, the request and
/// two lanes per target, and only when that fills at least four lanes on more
/// than two workers. A scalar pair already fills one or two workers.
pub open spec fn packed_width(requested: int, capacity: Option<usize>, workers: int) -> Option<int> {
    if workers <= 2 {
        None
    } else {
        match capacity {
            None => None,
            Some(cap) => {
                let a = if cap <= requested { cap as int } else { requested };
                let n = if a <= 2 * REPORTED_TARGETS { a } else { 2 * REPORTED_TARGETS as int };
                if n >= 4 {
                    Some(n)
                } else {
                    None
                }
            },
        }
    }
}

/// The packed width, if packing applies.
pub fn width(requested: usize, capacity: Option<usize>, workers: usize) -> (r: Option<usize>)
    ensures
        r matches Some(n) ==> packed_width(requested as int, capacity, workers as int) == Some(n as int),
        r is None ==> packed_width(requested as int, capacity, workers as int) is None,
{
    if workers <= 2 {
        return None;
    }
    match capacity {
        None => None,
        Some(cap) => {
            let a = if cap <= requested {
                cap
            } else {
                requested
            };
            let n = if a <= 2 * REPORTED_TARGETS {
                a
            } else {
                2 * REPORTED_TARGETS
            };
            if n >= 4 {
                Some(n)
            } else {
                None
            }
        },
    }
}

/// Extra bytes of cross-target packing: four parameter vectors per lane for
/// eight lanes over the rows and parameters, the parallel right-hand-side
/// scratch, the ordered-queue metadata of eight jobs, and a fixed header
/// allowance; zero when packing is off.
pub open spec fn packing_bytes(rows: int, parameters: int, queue_metadata_bytes: int) -> int {
    (rows + parameters) * 32 * 8 + parameters * 32 * 8 + queue_metadata_bytes + 8192
}

/// The extra bytes that cross-target packing adds to the spectrum envelope.
/// `queue_metadata_bytes` is the ordered-queue metadata of eight jobs.
pub fn extra_bytes(rows: u64, parameters: u64, enabled: bool, queue_metadata_bytes: u64) -> (r: Result<u64>)
    ensures
        !enabled ==> r == Ok::<u64, crate::error::BackendError>(0),
        enabled ==> (r is Ok <==> (rows + parameters) * 32 * 8 <= u64::MAX && packing_bytes(
            rows as int,
            parameters as int,
            queue_metadata_bytes as int,
        ) <= u64::MAX),
        enabled ==> (r matches Ok(v) ==> v == packing_bytes(rows as int, parameters as int, queue_metadata_bytes as int)),
        r matches Err(e) ==> e.code == crate::error::ErrorCode::ResourceLimit,
{
    if !enabled {
        return Ok(0);
    }
    let pair = vec![rows, parameters];
    proof {
        assert(pair@[0] == rows && pair@[1] == parameters);
        assert(sum_prefix(pair@, 0) == 0);
        assert(sum_prefix(pair@, 1) == rows);
        assert(sum_prefix(pair@, 2) == rows + parameters);
    }
    let lanes = checked_sum(pair.as_slice())?;
    let vectors = vec![lanes, 32, 8];
    proof {
        assert(vectors@[0] == lanes && vectors@[1] == 32 && vectors@[2] == 8);
        assert(product_prefix(vectors@, 0) == 1);
        assert(product_prefix(vectors@, 1) == lanes);
        assert(product_prefix(vectors@, 2) == lanes * 32);
        assert(product_prefix(vectors@, 3) == lanes * 32 * 8);
        assert(crate::generic_jla::products_fit(vectors@) <==> lanes * 32 * 8 <= u64::MAX) by {
            if lanes * 32 * 8 <= u64::MAX {
                assert forall|k: int| 0 <= k <= vectors@.len() implies #[trigger] product_prefix(vectors@, k) <= u64::MAX by {
                    assert(lanes * 32 <= lanes * 32 * 8);
                }
            }
        }
    }
    let vector_bytes = checked_product(vectors.as_slice(), "cross-target spectrum vectors")?;
    let scratch = vec![parameters, 32, 8];
    proof {
        assert(scratch@[0] == parameters && scratch@[1] == 32 && scratch@[2] == 8);
        assert(product_prefix(scratch@, 0) == 1);
        assert(product_prefix(scratch@, 1) == parameters);
        assert(product_prefix(scratch@, 2) == parameters * 32);
        assert(product_prefix(scratch@, 3) == parameters * 32 * 8);
        assert(crate::generic_jla::products_fit(scratch@) <==> parameters * 32 * 8 <= u64::MAX) by {
            if parameters * 32 * 8 <= u64::MAX {
                assert forall|k: int| 0 <= k <= scratch@.len() implies #[trigger] product_prefix(scratch@, k) <= u64::MAX by {
                    assert(parameters * 32 <= parameters * 32 * 8);
                }
            }
        }
        assert(parameters * 32 * 8 <= (rows + parameters) * 32 * 8);
    }
    let scratch_bytes = checked_product(scratch.as_slice(), "parallel spectrum RHS scratch")?;
    let terms = vec![vector_bytes, scratch_bytes, queue_metadata_bytes, 8192];
    proof {
        assert(terms@[0] == vector_bytes && terms@[1] == scratch_bytes && terms@[2] == queue_metadata_bytes && terms@[3] == 8192);
        assert(sum_prefix(terms@, 0) == 0);
        assert(sum_prefix(terms@, 1) == vector_bytes);
        assert(sum_prefix(terms@, 2) == vector_bytes + scratch_bytes);
        assert(sum_prefix(terms@, 3) == vector_bytes + scratch_bytes + queue_metadata_bytes);
        assert(sum_prefix(terms@, 4) == vector_bytes + scratch_bytes + queue_metadata_bytes + 8192);
    }
    checked_sum(terms.as_slice())
}

} // verus!
