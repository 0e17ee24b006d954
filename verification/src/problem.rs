//! Canonical worker-firm observation rows with dense identifiers.

use vstd::prelude::*;

use crate::error::{BackendError, ErrorCode, Result};

verus! {

/// The physical mass of the first `k` rows.
pub open spec fn mass_prefix(frequency: Seq<u64>, k: int) -> int
    decreases k,
{
    if k <= 0 {
        0
    } else {
        mass_prefix(frequency, k - 1) + frequency[k - 1]
    }
}

/// The columns agree in length, identifiers are below their counts, the node
/// count `workers + firms` is addressable, frequencies are positive, and the
/// physical total is their sum.
pub open spec fn canonical_rows_valid(
    worker: Seq<u32>,
    firm: Seq<u32>,
    deletion: Seq<u32>,
    frequency: Seq<u64>,
    workers: usize,
    firms: usize,
    deletion_units: usize,
    physical_total: u64,
) -> bool {
    let n = worker.len();
    &&& firm.len() == n
    &&& deletion.len() == n
    &&& frequency.len() == n
    &&& workers + firms <= usize::MAX
    &&& forall|r: int| 0 <= r < n ==> #[trigger] worker[r] < workers
    &&& forall|r: int| 0 <= r < n ==> #[trigger] firm[r] < firms
    &&& forall|r: int| 0 <= r < n ==> #[trigger] deletion[r] < deletion_units
    &&& forall|r: int| 0 <= r < n ==> #[trigger] frequency[r] >= 1
    &&& physical_total == mass_prefix(frequency, n as int)
}

/// Observation rows whose worker, firm and deletion-unit identifiers are dense:
/// every identifier is below the corresponding count.
#[derive(Debug)]
pub struct CanonicalInput {
    worker: Vec<u32>,
    firm: Vec<u32>,
    deletion: Vec<u32>,
    frequency: Vec<u64>,
    physical_total: u64,
    workers: usize,
    firms: usize,
    deletion_units: usize,
}

impl CanonicalInput {
    /// The rows satisfy [`canonical_rows_valid`].
    #[verifier::type_invariant]
    pub open spec fn wf(&self) -> bool {
        canonical_rows_valid(
            self.spec_worker(),
            self.spec_firm(),
            self.spec_deletion(),
            self.spec_frequency(),
            self.spec_workers(),
            self.spec_firms(),
            self.spec_deletion_units(),
            self.spec_physical_total(),
        )
    }

    pub closed spec fn spec_worker(&self) -> Seq<u32> {
        self.worker@
    }

    pub closed spec fn spec_firm(&self) -> Seq<u32> {
        self.firm@
    }

    pub closed spec fn spec_deletion(&self) -> Seq<u32> {
        self.deletion@
    }

    pub closed spec fn spec_frequency(&self) -> Seq<u64> {
        self.frequency@
    }

    pub closed spec fn spec_workers(&self) -> usize {
        self.workers
    }

    pub closed spec fn spec_firms(&self) -> usize {
        self.firms
    }

    pub closed spec fn spec_deletion_units(&self) -> usize {
        self.deletion_units
    }

    pub closed spec fn spec_physical_total(&self) -> u64 {
        self.physical_total
    }

    /// Builds canonical rows from dense identifiers, checking every invariant.
    /// Fails with `InvalidInput` on mismatched lengths, out-of-range identifiers,
    /// zero frequencies or an unaddressable node count, and with `ResourceLimit`
    /// when the physical total overflows.
    pub fn from_dense(
        worker: Vec<u32>,
        firm: Vec<u32>,
        deletion: Vec<u32>,
        frequency: Vec<u64>,
        workers: usize,
        firms: usize,
        deletion_units: usize,
    ) -> (r: Result<CanonicalInput>)
        ensures
            r is Ok <==> {
                &&& firm@.len() == worker@.len()
                &&& deletion@.len() == worker@.len()
                &&& frequency@.len() == worker@.len()
                &&& workers + firms <= usize::MAX
                &&& forall|i: int| 0 <= i < worker@.len() ==> #[trigger] worker@[i] < workers
                &&& forall|i: int| 0 <= i < worker@.len() ==> #[trigger] firm@[i] < firms
                &&& forall|i: int| 0 <= i < worker@.len() ==> #[trigger] deletion@[i] < deletion_units
                &&& forall|i: int| 0 <= i < worker@.len() ==> #[trigger] frequency@[i] >= 1
                &&& mass_prefix(frequency@, worker@.len() as int) <= u64::MAX
            },
            r matches Ok(c) ==> {
                &&& c.spec_worker() == worker@
                &&& c.spec_firm() == firm@
                &&& c.spec_deletion() == deletion@
                &&& c.spec_frequency() == frequency@
                &&& c.spec_workers() == workers
                &&& c.spec_firms() == firms
                &&& c.spec_deletion_units() == deletion_units
            },
            r matches Err(e) ==> e.code == ErrorCode::InvalidInput || e.code == ErrorCode::ResourceLimit,
    {
        let n = worker.len();
        if firm.len() != n || deletion.len() != n || frequency.len() != n {
            return Err(BackendError::invalid("canonical_input", "input columns differ in length"));
        }
        if workers.checked_add(firms).is_none() {
            return Err(BackendError::invalid("canonical_input", "node count is not addressable"));
        }
        let mut total: u64 = 0;
        let mut row: usize = 0;
        while row < n
            invariant
                n == worker.len(),
                firm.len() == n,
                deletion.len() == n,
                frequency.len() == n,
                row <= n,
                total == mass_prefix(frequency@, row as int),
                forall|i: int| 0 <= i < row ==> #[trigger] worker@[i] < workers,
                forall|i: int| 0 <= i < row ==> #[trigger] firm@[i] < firms,
                forall|i: int| 0 <= i < row ==> #[trigger] deletion@[i] < deletion_units,
                forall|i: int| 0 <= i < row ==> #[trigger] frequency@[i] >= 1,
            decreases n - row,
        {
            if (worker[row] as usize) >= workers || (firm[row] as usize) >= firms
                || (deletion[row] as usize) >= deletion_units {
                return Err(BackendError::invalid("canonical_input", "identifier out of range"));
            }
            if frequency[row] == 0 {
                return Err(BackendError::invalid("canonical_input", "frequencies must be positive"));
            }
            total = match total.checked_add(frequency[row]) {
                Some(t) => t,
                None => {
                    proof {
                        lemma_mass_prefix_monotone(frequency@, row as int + 1, n as int);
                    }
                    return Err(
                        BackendError::new(
                            ErrorCode::ResourceLimit,
                            "canonical_input",
                            "physical total overflow",
                        ),
                    );
                },
            };
            row = row + 1;
        }
        Ok(
            CanonicalInput {
                worker,
                firm,
                deletion,
                frequency,
                physical_total: total,
                workers,
                firms,
                deletion_units,
            },
        )
    }

    /// Number of observation rows.
    pub fn rows(&self) -> (r: usize)
        ensures
            r == self.spec_worker().len(),
    {
        self.worker.len()
    }

    /// Number of dense workers.
    pub fn workers(&self) -> (r: usize)
        ensures
            r == self.spec_workers(),
    {
        self.workers
    }

    /// Number of dense firms.
    pub fn firms(&self) -> (r: usize)
        ensures
            r == self.spec_firms(),
    {
        self.firms
    }

    /// Number of dense deletion units.
    pub fn deletion_units(&self) -> (r: usize)
        ensures
            r == self.spec_deletion_units(),
    {
        self.deletion_units
    }

    /// Total physical mass of the rows.
    pub fn physical_total(&self) -> (r: u64)
        ensures
            r == self.spec_physical_total(),
    {
        self.physical_total
    }

    /// Worker of a row.
    pub fn worker_at(&self, row: usize) -> (r: u32)
        requires
            row < self.spec_worker().len(),
        ensures
            r == self.spec_worker()[row as int],
    {
        self.worker[row]
    }

    /// Firm of a row.
    pub fn firm_at(&self, row: usize) -> (r: u32)
        requires
            row < self.spec_worker().len(),
        ensures
            r == self.spec_firm()[row as int],
    {
        proof {
            use_type_invariant(self);
        }
        self.firm[row]
    }

    /// Deletion unit of a row.
    pub fn deletion_at(&self, row: usize) -> (r: u32)
        requires
            row < self.spec_worker().len(),
        ensures
            r == self.spec_deletion()[row as int],
    {
        proof {
            use_type_invariant(self);
        }
        self.deletion[row]
    }

    /// Physical frequency of a row.
    pub fn frequency_at(&self, row: usize) -> (r: u64)
        requires
            row < self.spec_worker().len(),
        ensures
            r == self.spec_frequency()[row as int],
    {
        proof {
            use_type_invariant(self);
        }
        self.frequency[row]
    }
}

/// Frequencies are positive, so the mass of a prefix grows with its length.
pub proof fn lemma_mass_prefix_monotone(frequency: Seq<u64>, a: int, b: int)
    requires
        0 <= a <= b <= frequency.len(),
    ensures
        mass_prefix(frequency, a) <= mass_prefix(frequency, b),
    decreases b - a,
{
    if a < b {
        lemma_mass_prefix_monotone(frequency, a, b - 1);
    }
}

} // verus!
