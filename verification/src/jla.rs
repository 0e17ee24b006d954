//! Plan-building checks of the JLA estimator.

use vstd::prelude::*;

use crate::error::{BackendError, ErrorCode, Result};
use crate::interrupt::{checkpoint_chunk, InterruptCheck, INTERRUPTIBLE_SORT_RUN};
use crate::sort::{
    decides, hit, lemma_injective_onto, precedence_of, sort_by_precedence, sorts, total_preorder,
    Precedence,
};

verus! {

/// A resource-limit error of the plan builder.
pub fn resource_error(message: &str) -> (e: BackendError)
    ensures
        e.code == ErrorCode::ResourceLimit,
        e.phase == "jla_plan",
        e.message@ == message@,
{
    BackendError::new(ErrorCode::ResourceLimit, "jla_plan", message)
}

/// Numeric order on `u64` as a preorder.
pub closed spec fn u64_le() -> spec_fn(u64, u64) -> bool {
    |a: u64, b: u64| a <= b
}

/// `s` is `orig` rearranged into increasing order.
pub open spec fn sorted_from(s: Seq<u64>, orig: Seq<u64>) -> bool {
    exists|pos: Seq<int>| #[trigger] sorts(u64_le(), false, s, orig, pos)
}

/// A copy of `values` in increasing order.
fn sorted_copy<I: InterruptCheck>(values: &[u64], interrupt: &mut I) -> (r: Result<Vec<u64>>)
    ensures
        r matches Ok(s) ==> sorted_from(s@, values@),
        old(interrupt).inert() ==> final(interrupt).inert(),
        old(interrupt).inert() ==> (r matches Err(e) ==> e.code == ErrorCode::ResourceLimit
            || e.code == ErrorCode::AllocationFailed),
        old(interrupt).inert() && values.len() <= INTERRUPTIBLE_SORT_RUN ==> r is Ok,
{
    let ghost inert0 = interrupt.inert();
    let mut sorted: Vec<u64> = Vec::new();
    let mut index: usize = 0;
    while index < values.len()
        invariant
            index <= values.len(),
            sorted.len() == index,
            forall|i: int| 0 <= i < index ==> #[trigger] sorted@[i] == values@[i],
            inert0 == old(interrupt).inert(),
            inert0 ==> interrupt.inert(),
        decreases values.len() - index,
    {
        match checkpoint_chunk(interrupt, index, "jla_plan_unique_copy") {
            Ok(()) => {},
            Err(e) => {
                return Err(e);
            },
        }
        sorted.push(values[index]);
        index = index + 1;
    }
    proof {
        assert(sorted@ =~= values@);
    }
    let order = |a: &u64, b: &u64| -> (p: Precedence)
        ensures
            p == precedence_of(*a <= *b, *b <= *a),
        {
            if *a < *b {
                Precedence::Before
            } else if *a == *b {
                Precedence::Tied
            } else {
                Precedence::After
            }
        };
    let ghost le = u64_le();
    proof {
        assert forall|a: &u64, b: &u64| #[trigger] order.requires((a, b)) by {}
        assert(decides(order, le));
        assert(total_preorder(le));
    }
    let ghost before = sorted@;
    sort_by_precedence(&mut sorted, &order, false, interrupt, "jla_plan_unique_sort", Ghost(le))?;
    proof {
        assert(before == values@);
        let pos = choose|pos: Seq<int>| sorts(le, false, sorted@, before, pos);
        assert(sorts(u64_le(), false, sorted@, values@, pos));
        assert(sorted_from(sorted@, values@));
    }
    Ok(sorted)
}

/// Whether no value occurs twice, by sorting a copy and comparing neighbours.
pub fn all_unique<I: InterruptCheck>(values: &[u64], interrupt: &mut I) -> (r: Result<bool>)
    ensures
        r matches Ok(b) ==> (b <==> values@.no_duplicates()),
        old(interrupt).inert() ==> final(interrupt).inert(),
        old(interrupt).inert() ==> (r matches Err(e) ==> e.code == ErrorCode::ResourceLimit
            || e.code == ErrorCode::AllocationFailed),
        old(interrupt).inert() && values.len() <= INTERRUPTIBLE_SORT_RUN ==> r is Ok,
{
    let ghost inert0 = interrupt.inert();
    let ghost before = values@;
    let sorted = sorted_copy(values, interrupt)?;
    let ghost order = u64_le();
    let ghost pos = choose|pos: Seq<int>| #[trigger] sorts(order, false, sorted@, before, pos);
    proof {
        lemma_injective_onto(pos, before.len() as int);
    }
    let n = sorted.len();
    let mut k: usize = 0;
    while n > 0 && k < n - 1
        invariant
            n == sorted.len(),
            k <= n,
            before == values@,
            forall|a: u64, b: u64| #[trigger] order(a, b) == (a <= b),
            sorts(order, false, sorted@, before, pos),
            forall|i: int| 0 <= i < k ==> #[trigger] sorted@[i] != sorted@[i + 1],
            inert0 == old(interrupt).inert(),
            inert0 ==> interrupt.inert(),
        decreases n - k,
    {
        match checkpoint_chunk(interrupt, k, "jla_plan_unique_reconcile") {
            Ok(()) => {},
            Err(e) => {
                return Err(e);
            },
        }
        if sorted[k] == sorted[k + 1] {
            proof {
                let i = pos[k as int];
                let j = pos[k + 1];
                assert(before[i] == before[j]);
                assert(i != j);
                assert(0 <= i < values@.len() && 0 <= j < values@.len());
                assert(values@[i] == values@[j]);
                assert(!values@.no_duplicates());
            }
            return Ok(false);
        }
        k = k + 1;
    }
    proof {
        let s = sorted@;
        assert forall|i: int, j: int| 0 <= i < j < s.len() implies s[i] < s[j] by {
            lemma_strict_chain(s, order, i, j);
        }
        assert forall|i: int, j: int| 0 <= i < before.len() && 0 <= j < before.len() && i != j implies before[i] != before[j] by {
            assert(hit(pos, before.len() as int, i));
            assert(hit(pos, before.len() as int, j));
            let a = choose|a: int| 0 <= a < before.len() && #[trigger] pos[a] == i;
            let b = choose|b: int| 0 <= b < before.len() && #[trigger] pos[b] == j;
            assert(a != b);
            if a < b {
                assert(s[a] < s[b]);
            } else {
                assert(s[b] < s[a]);
            }
        }
    }
    Ok(true)
}

proof fn lemma_strict_chain(s: Seq<u64>, order: spec_fn(u64, u64) -> bool, i: int, j: int)
    requires
        0 <= i < j < s.len(),
        forall|a: u64, b: u64| #[trigger] order(a, b) == (a <= b),
        forall|x: int, y: int| 0 <= x < y < s.len() ==> order(#[trigger] s[x], #[trigger] s[y]),
        forall|x: int| 0 <= x < s.len() - 1 ==> #[trigger] s[x] != s[x + 1],
    ensures
        s[i] < s[j],
{
    assert(order(s[i], s[i + 1]));
    assert(s[i] != s[i + 1]);
    assert(order(s[i + 1], s[j]) || i + 1 == j);
}

} // verus!
