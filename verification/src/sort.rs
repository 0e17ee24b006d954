//! Deterministic chunked sorting whose run boundaries and merge copies are
//! cooperatively interruptible.
//!
//! Runs of at most [`INTERRUPTIBLE_SORT_RUN`] elements are sorted by the
//! standard library; checked merge passes of doubling width then combine them.
//! The order is given by a closure returning a [`Precedence`] together with a
//! total preorder `le` that the closure decides.

use vstd::prelude::*;

use crate::allocation::reserve_exact;
use crate::error::{BackendError, ErrorCode, Result};
use crate::interrupt::{checkpoint_chunk, refused_at, InterruptCheck, INTERRUPTIBLE_SORT_RUN};

verus! {

/// The outcome of comparing two elements.
#[derive(Clone, Copy, Debug, PartialEq, Eq, Structural)]
pub enum Precedence {
    Before,
    Tied,
    After,
}

/// The comparison outcome that a total preorder `le` prescribes.
pub open spec fn precedence_of(ab: bool, ba: bool) -> Precedence {
    if !ab {
        Precedence::After
    } else if ba {
        Precedence::Tied
    } else {
        Precedence::Before
    }
}

/// `le` is total and transitive.
pub open spec fn total_preorder<T>(le: spec_fn(T, T) -> bool) -> bool {
    &&& forall|a: T, b: T| #[trigger] le(a, b) || le(b, a)
    &&& forall|a: T, b: T, c: T| #[trigger] le(a, b) && #[trigger] le(b, c) ==> le(a, c)
}

/// The closure may be called on any pair and answers exactly as `le` prescribes.
pub open spec fn decides<T, P: Fn(&T, &T) -> Precedence>(order: P, le: spec_fn(T, T) -> bool) -> bool {
    &&& forall|a: &T, b: &T| #[trigger] order.requires((a, b))
    &&& forall|a: &T, b: &T, r: Precedence| #[trigger]
        order.ensures((a, b), r) ==> r == precedence_of(le(*a, *b), le(*b, *a))
}

/// The closure decides some total preorder: it is a valid standard-library comparator.
pub open spec fn valid_order<T, P: Fn(&T, &T) -> Precedence>(order: P) -> bool {
    exists|le: spec_fn(T, T) -> bool| total_preorder(le) && decides(order, le)
}

/// `pos` maps `[0, n)` injectively into `[0, n)`.
pub open spec fn injective_in(pos: Seq<int>, n: int) -> bool {
    &&& pos.len() == n
    &&& forall|k: int| 0 <= k < n ==> 0 <= #[trigger] pos[k] < n
    &&& forall|i: int, j: int| 0 <= i < j < n ==> #[trigger] pos[i] != #[trigger] pos[j]
}

/// `s` is `orig` rearranged by the injective index map `pos`.
pub open spec fn rearranges<T>(s: Seq<T>, orig: Seq<T>, pos: Seq<int>) -> bool {
    &&& s.len() == orig.len()
    &&& injective_in(pos, s.len() as int)
    &&& forall|k: int| 0 <= k < s.len() ==> #[trigger] s[k] == orig[pos[k]]
}

/// `s` is ordered by `le`.
pub open spec fn sorted_by<T>(le: spec_fn(T, T) -> bool, s: Seq<T>) -> bool {
    forall|i: int, j: int| 0 <= i < j < s.len() ==> le(#[trigger] s[i], #[trigger] s[j])
}

/// Equivalent elements of `s` keep the relative order of their original positions.
pub open spec fn keeps_ties<T>(le: spec_fn(T, T) -> bool, s: Seq<T>, pos: Seq<int>) -> bool {
    forall|i: int, j: int|
        0 <= i < j < s.len() && le(#[trigger] s[j], #[trigger] s[i]) ==> pos[i] < pos[j]
}

/// `s` is a sorted rearrangement of `orig` (stably so, when `stable`).
pub open spec fn sorts<T>(
    le: spec_fn(T, T) -> bool,
    stable: bool,
    s: Seq<T>,
    orig: Seq<T>,
    pos: Seq<int>,
) -> bool {
    &&& rearranges(s, orig, pos)
    &&& sorted_by(le, s)
    &&& stable ==> keeps_ties(le, s, pos)
}

spec fn smin(a: int, b: int) -> int {
    if a < b {
        a
    } else {
        b
    }
}

/// `lo`/`hi` tile `[0, n)` with consecutive blocks of width `w` (the last may be short).
spec fn tiled(n: int, w: int, lo: Seq<int>, hi: Seq<int>) -> bool {
    &&& lo.len() == n
    &&& hi.len() == n
    &&& n > 0 ==> lo[0] == 0
    &&& forall|k: int|
        #![trigger lo[k]]
        0 <= k < n ==> {
            &&& lo[k] <= k < hi[k] <= n
            &&& hi[k] == smin(lo[k] + w, n)
            &&& (hi[k] < n ==> lo[hi[k]] == hi[k])
        }
    &&& forall|k: int, j: int| 0 <= k < n && lo[k] <= j < hi[k] ==> #[trigger] lo[j] == #[trigger] lo[k]
}

/// Every block of `s` is a sorted (stable) rearrangement of the same block of `orig`.
spec fn blockwise<T>(
    le: spec_fn(T, T) -> bool,
    stable: bool,
    s: Seq<T>,
    orig: Seq<T>,
    pos: Seq<int>,
    lo: Seq<int>,
    hi: Seq<int>,
) -> bool {
    &&& s.len() == orig.len()
    &&& pos.len() == s.len()
    &&& forall|k: int| 0 <= k < s.len() ==> lo[k] <= #[trigger] pos[k] < hi[k]
    &&& forall|k: int| 0 <= k < s.len() ==> #[trigger] s[k] == orig[pos[k]]
    &&& forall|i: int, j: int| 0 <= i < j < s.len() ==> #[trigger] pos[i] != #[trigger] pos[j]
    &&& forall|i: int, j: int|
        0 <= i < j < s.len() && lo[i] == lo[j] ==> le(#[trigger] s[i], #[trigger] s[j])
    &&& stable ==> forall|i: int, j: int|
        0 <= i < j < s.len() && lo[i] == lo[j] && le(#[trigger] s[j], #[trigger] s[i]) ==> pos[i]
            < pos[j]
}

/// Converts a comparison outcome to the standard-library ordering.
pub fn to_std_ordering(p: Precedence) -> (r: core::cmp::Ordering)
    ensures
        p == Precedence::Before <==> r == core::cmp::Ordering::Less,
        p == Precedence::Tied <==> r == core::cmp::Ordering::Equal,
        p == Precedence::After <==> r == core::cmp::Ordering::Greater,
{
    match p {
        Precedence::Before => core::cmp::Ordering::Less,
        Precedence::Tied => core::cmp::Ordering::Equal,
        Precedence::After => core::cmp::Ordering::Greater,
    }
}

/// `s[start..end)` is `o[start..end)` rearranged by the injective map `q`, and
/// `s` agrees with `o` outside the range.
pub open spec fn range_rearranged<T>(s: Seq<T>, o: Seq<T>, q: Seq<int>, start: usize, end: usize) -> bool {
    &&& s.len() == o.len()
    &&& q.len() == o.len()
    &&& forall|k: int| 0 <= k < o.len() && !(start <= k < end) ==> #[trigger] s[k] == o[k]
    &&& forall|k: int| start <= k < end ==> start <= #[trigger] q[k] < end
    &&& forall|k: int| start <= k < end ==> #[trigger] s[k] == o[q[k]]
    &&& forall|i: int, j: int| start <= i < j < end ==> #[trigger] q[i] != #[trigger] q[j]
}

/// `s[start..end)` is ordered by `le`.
pub open spec fn range_sorted<T>(le: spec_fn(T, T) -> bool, s: Seq<T>, start: usize, end: usize) -> bool {
    forall|i: int, j: int| start <= i < j < end ==> le(#[trigger] s[i], #[trigger] s[j])
}

/// Equivalent elements of `s[start..end)` are in the order of their sources `q`.
pub open spec fn range_keeps_ties<T>(
    le: spec_fn(T, T) -> bool,
    s: Seq<T>,
    q: Seq<int>,
    start: usize,
    end: usize,
) -> bool {
    forall|i: int, j: int|
        start <= i < j < end && le(#[trigger] s[j], #[trigger] s[i]) ==> q[i] < q[j]
}

/// For every total preorder that `order` decides, the range is sorted (and, if
/// `stable`, keeps ties in source order).
pub open spec fn range_sorted_for_order<T, P: Fn(&T, &T) -> Precedence>(
    order: P,
    stable: bool,
    s: Seq<T>,
    q: Seq<int>,
    start: usize,
    end: usize,
) -> bool {
    forall|le: spec_fn(T, T) -> bool|
        #![trigger decides(order, le)]
        total_preorder(le) && decides(order, le) ==> {
            &&& range_sorted(le, s, start, end)
            &&& stable ==> range_keeps_ties(le, s, q, start, end)
        }
}

/// Converts a standard-library ordering to a comparison outcome.
pub fn from_std_ordering(o: core::cmp::Ordering) -> (r: Precedence)
    ensures
        o == core::cmp::Ordering::Less <==> r == Precedence::Before,
        o == core::cmp::Ordering::Equal <==> r == Precedence::Tied,
        o == core::cmp::Ordering::Greater <==> r == Precedence::After,
{
    match o {
        core::cmp::Ordering::Less => Precedence::Before,
        core::cmp::Ordering::Equal => Precedence::Tied,
        core::cmp::Ordering::Greater => Precedence::After,
    }
}

/// Stable sort of `values[start..end]` by `slice::sort_by`, which the standard
/// library documents as a stable sort for any total-order comparator. The
/// contract claims that the range is then a stable sorted rearrangement of
/// itself for every total preorder the comparator decides, and that the rest
/// of the vector is untouched.
#[verifier::external_body]
fn std_sort_range_stable<T: Copy, P: Fn(&T, &T) -> Precedence>(
    values: &mut Vec<T>,
    start: usize,
    end: usize,
    order: &P,
)
    requires
        start <= end <= old(values).len(),
        valid_order(*order),
    ensures
        exists|q: Seq<int>|
            range_rearranged(final(values)@, old(values)@, q, start, end)
                && range_sorted_for_order(*order, true, final(values)@, q, start, end),
{
    values[start..end].sort_by(|a, b| to_std_ordering(order(a, b)));
}

/// Unstable sort of `values[start..end]` by `slice::sort_unstable_by`, which the
/// standard library documents as sorting by any total-order comparator without
/// preserving the order of equal elements. The contract claims a sorted
/// rearrangement of the range for every total preorder the comparator decides.
#[verifier::external_body]
fn std_sort_range_unstable<T: Copy, P: Fn(&T, &T) -> Precedence>(
    values: &mut Vec<T>,
    start: usize,
    end: usize,
    order: &P,
)
    requires
        start <= end <= old(values).len(),
        valid_order(*order),
    ensures
        exists|q: Seq<int>|
            range_rearranged(final(values)@, old(values)@, q, start, end)
                && range_sorted_for_order(*order, false, final(values)@, q, start, end),
{
    values[start..end].sort_unstable_by(|a, b| to_std_ordering(order(a, b)));
}

/// The saturating double of a merge width.
spec fn doubled(w: int) -> int {
    if 2 * w > usize::MAX {
        usize::MAX as int
    } else {
        2 * w
    }
}

/// Positions `[0, upto)` of `d` hold finished blocks of width `w` that tile
/// `[0, upto)`; each block is a sorted (stable) rearrangement of the same
/// block of `orig`.
spec fn merged_prefix<T>(
    le: spec_fn(T, T) -> bool,
    stable: bool,
    d: Seq<T>,
    orig: Seq<T>,
    pos: Seq<int>,
    lo: Seq<int>,
    hi: Seq<int>,
    w: int,
    upto: int,
) -> bool {
    &&& 0 <= upto <= d.len()
    &&& d.len() == orig.len()
    &&& pos.len() == d.len()
    &&& lo.len() == d.len()
    &&& hi.len() == d.len()
    &&& upto > 0 ==> lo[0] == 0
    &&& forall|k: int|
        #![trigger lo[k]]
        0 <= k < upto ==> {
            &&& lo[k] <= k < hi[k] <= upto
            &&& hi[k] == smin(lo[k] + w, d.len() as int)
            &&& (hi[k] < upto ==> lo[hi[k]] == hi[k])
            &&& lo[k] <= pos[k] < hi[k]
            &&& d[k] == orig[pos[k]]
        }
    &&& forall|k: int, j: int| 0 <= k < upto && lo[k] <= j < hi[k] ==> #[trigger] lo[j] == #[trigger] lo[k]
    &&& forall|i: int, j: int| 0 <= i < j < upto ==> #[trigger] pos[i] != #[trigger] pos[j]
    &&& forall|i: int, j: int|
        0 <= i < j < upto && lo[i] == lo[j] ==> le(#[trigger] d[i], #[trigger] d[j])
    &&& stable ==> forall|i: int, j: int|
        0 <= i < j < upto && lo[i] == lo[j] && le(#[trigger] d[j], #[trigger] d[i]) ==> pos[i]
            < pos[j]
}

proof fn lemma_merged_prefix_complete<T>(
    le: spec_fn(T, T) -> bool,
    stable: bool,
    d: Seq<T>,
    orig: Seq<T>,
    pos: Seq<int>,
    lo: Seq<int>,
    hi: Seq<int>,
    w: int,
)
    requires
        merged_prefix(le, stable, d, orig, pos, lo, hi, w, d.len() as int),
    ensures
        tiled(d.len() as int, w, lo, hi),
        blockwise(le, stable, d, orig, pos, lo, hi),
{
}

/// A tiling whose width covers everything is one block, so a blockwise sorted
/// rearrangement is a sorted rearrangement.
proof fn lemma_single_block<T>(
    le: spec_fn(T, T) -> bool,
    stable: bool,
    d: Seq<T>,
    orig: Seq<T>,
    pos: Seq<int>,
    lo: Seq<int>,
    hi: Seq<int>,
    w: int,
)
    requires
        tiled(d.len() as int, w, lo, hi),
        blockwise(le, stable, d, orig, pos, lo, hi),
        w >= d.len(),
    ensures
        sorts(le, stable, d, orig, pos),
{
    let n = d.len() as int;
    if n > 0 {
        assert(hi[0] == n);
        assert forall|k: int| 0 <= k < n implies lo[k] == 0 by {
            assert(lo[0] <= k < hi[0]);
        }
        assert forall|k: int| 0 <= k < n implies 0 <= #[trigger] pos[k] < n by {
            assert(lo[k] <= k < hi[k]);
        }
    }
}

/// `[begin, middle)` and `[middle, end)` are whole blocks of the source tiling.
spec fn block_pair(lo: Seq<int>, hi: Seq<int>, begin: int, middle: int, end: int) -> bool {
    &&& forall|k: int| begin <= k < middle ==> #[trigger] lo[k] == begin && hi[k] == middle
    &&& forall|k: int| middle <= k < end ==> #[trigger] lo[k] == middle && hi[k] == end
}

/// The state of merging block `[begin, end)` after writing `[begin, out)`:
/// `src` records which source position each written element came from.
spec fn merging<T>(
    le: spec_fn(T, T) -> bool,
    stable: bool,
    s: Seq<T>,
    pos: Seq<int>,
    d: Seq<T>,
    src: Seq<int>,
    p: Seq<int>,
    lo2: Seq<int>,
    hi2: Seq<int>,
    begin: int,
    middle: int,
    end: int,
    left: int,
    right: int,
    out: int,
) -> bool {
    &&& forall|k: int|
        #![trigger src[k]]
        begin <= k < out ==> {
            &&& lo2[k] == begin
            &&& hi2[k] == end
            &&& d[k] == s[src[k]]
            &&& p[k] == pos[src[k]]
            &&& (begin <= src[k] < left || middle <= src[k] < right)
            &&& (left < middle ==> le(d[k], s[left]))
            &&& (right < end ==> le(d[k], s[right]))
            &&& (src[k] >= middle && left < middle ==> !le(s[left], d[k]))
        }
    &&& forall|i: int, j: int| begin <= i < j < out ==> #[trigger] src[i] != #[trigger] src[j]
    &&& forall|i: int, j: int| begin <= i < j < out ==> le(#[trigger] d[i], #[trigger] d[j])
    &&& stable ==> forall|i: int, j: int|
        begin <= i < j < out && le(#[trigger] d[j], #[trigger] d[i]) ==> p[i] < p[j]
}

proof fn lemma_merge_step<T>(
    le: spec_fn(T, T) -> bool,
    stable: bool,
    s: Seq<T>,
    orig: Seq<T>,
    pos: Seq<int>,
    lo: Seq<int>,
    hi: Seq<int>,
    d0: Seq<T>,
    d1: Seq<T>,
    src0: Seq<int>,
    src1: Seq<int>,
    p0: Seq<int>,
    p1: Seq<int>,
    lo20: Seq<int>,
    lo21: Seq<int>,
    hi20: Seq<int>,
    hi21: Seq<int>,
    begin: int,
    middle: int,
    end: int,
    out: int,
    l: int,
    r: int,
    take_left: bool,
    w2: int,
)
    requires
        total_preorder(le),
        blockwise(le, stable, s, orig, pos, lo, hi),
        d0.len() == s.len(),
        src0.len() == s.len(),
        0 <= begin < middle <= end <= s.len(),
        begin <= l <= middle <= r <= end,
        out == l + r - middle,
        out < end,
        block_pair(lo, hi, begin, middle, end),
        merged_prefix(le, stable, d0, orig, p0, lo20, hi20, w2, begin),
        merging(le, stable, s, pos, d0, src0, p0, lo20, hi20, begin, middle, end, l, r, out),
        take_left ==> l < middle && (r < end ==> le(s[l], s[r])),
        !take_left ==> r < end && (l < middle ==> !le(s[l], s[r])),
        d1 == d0.update(out, s[if take_left { l } else { r }]),
        src1 == src0.update(out, if take_left { l } else { r }),
        p1 == p0.update(out, pos[if take_left { l } else { r }]),
        lo21 == lo20.update(out, begin),
        hi21 == hi20.update(out, end),
    ensures
        merged_prefix(le, stable, d1, orig, p1, lo21, hi21, w2, begin),
        merging(
            le,
            stable,
            s,
            pos,
            d1,
            src1,
            p1,
            lo21,
            hi21,
            begin,
            middle,
            end,
            if take_left { l + 1 } else { l },
            if take_left { r } else { r + 1 },
            out + 1,
        ),
{
    let idx = if take_left { l } else { r };
    let x = s[idx];
    let nl = if take_left { l + 1 } else { l };
    let nr = if take_left { r } else { r + 1 };
    assert(d1[out] == x);
    assert forall|k: int| begin <= k < out + 1 implies lo21[k] == begin && hi21[k] == end by {
        if k < out {
            let _ = src0[k];
        }
    }
    // the frame below `begin` is untouched
    assert forall|k: int| 0 <= k < begin implies d1[k] == d0[k] && p1[k] == p0[k] && lo21[k]
        == lo20[k] && hi21[k] == hi20[k] by {}
    assert(merged_prefix(le, stable, d1, orig, p1, lo21, hi21, w2, begin)) by {
        assert forall|k: int| 0 <= k < begin && hi20[k] < begin implies lo21[hi20[k]] == lo20[hi20[k]] by {}
    }
    if take_left {
        if l + 1 < middle {
            assert(lo[l] == lo[l + 1]);
            assert(le(s[l], s[l + 1]));
        }
        assert forall|k: int|
            #![trigger src1[k]]
            begin <= k < out + 1 implies {
            &&& lo21[k] == begin
            &&& hi21[k] == end
            &&& d1[k] == s[src1[k]]
            &&& p1[k] == pos[src1[k]]
            &&& (begin <= src1[k] < nl || middle <= src1[k] < nr)
            &&& (nl < middle ==> le(d1[k], s[nl]))
            &&& (nr < end ==> le(d1[k], s[nr]))
            &&& (src1[k] >= middle && nl < middle ==> !le(s[nl], d1[k]))
        } by {
            if k < out {
                assert(src1[k] == src0[k]);
                if nl < middle {
                    assert(le(d0[k], s[l]));
                    assert(le(s[l], s[l + 1]));
                    assert(le(d0[k], s[l + 1]));
                    if src0[k] >= middle {
                        assert(!le(s[l], d0[k]));
                        if le(s[l + 1], d0[k]) {
                            assert(le(s[l], d0[k]));
                        }
                    }
                }
            }
        }
        assert forall|i: int, j: int| begin <= i < j < out + 1 implies #[trigger] src1[i]
            != #[trigger] src1[j] by {
            if j == out {
                assert(src0[i] < l || src0[i] >= middle);
            }
        }
        assert forall|i: int, j: int| begin <= i < j < out + 1 implies le(
            #[trigger] d1[i],
            #[trigger] d1[j],
        ) by {
            if j == out {
                assert(begin <= i < out);
                let _ = src0[i];
                assert(l < middle);
                assert(merging(le, stable, s, pos, d0, src0, p0, lo20, hi20, begin, middle, end, l, r, out));
                assert(d0[i] == s[src0[i]]);
                assert(le(d0[i], s[l]));
            }
        }
        if stable {
            assert forall|i: int, j: int|
                begin <= i < j < out + 1 && le(#[trigger] d1[j], #[trigger] d1[i]) implies p1[i]
                < p1[j] by {
                if j == out {
                    let si = src0[i];
                    assert(d1[i] == s[si]);
                    if si >= middle {
                        assert(!le(s[l], d0[i]));
                    } else {
                        assert(si < l);
                        assert(lo[si] == lo[l]);
                        assert(le(s[l], s[si]));
                        assert(pos[si] < pos[l]);
                    }
                }
            }
        }
        assert(merging(le, stable, s, pos, d1, src1, p1, lo21, hi21, begin, middle, end, l + 1, r, out + 1));
    } else {
        if r + 1 < end {
            assert(lo[r] == lo[r + 1]);
            assert(le(s[r], s[r + 1]));
        }
        if l < middle {
            assert(!le(s[l], s[r]));
            assert(le(s[r], s[l]));
        }
        assert forall|k: int|
            #![trigger src1[k]]
            begin <= k < out + 1 implies {
            &&& lo21[k] == begin
            &&& hi21[k] == end
            &&& d1[k] == s[src1[k]]
            &&& p1[k] == pos[src1[k]]
            &&& (begin <= src1[k] < nl || middle <= src1[k] < nr)
            &&& (nl < middle ==> le(d1[k], s[nl]))
            &&& (nr < end ==> le(d1[k], s[nr]))
            &&& (src1[k] >= middle && nl < middle ==> !le(s[nl], d1[k]))
        } by {
            if k < out {
                assert(src1[k] == src0[k]);
                if nr < end {
                    assert(le(d0[k], s[r]));
                    assert(le(s[r], s[r + 1]));
                    assert(le(d0[k], s[r + 1]));
                }
            }
        }
        assert forall|i: int, j: int| begin <= i < j < out + 1 implies #[trigger] src1[i]
            != #[trigger] src1[j] by {
            if j == out {
                assert(src0[i] < l || src0[i] < r);
            }
        }
        assert forall|i: int, j: int| begin <= i < j < out + 1 implies le(
            #[trigger] d1[i],
            #[trigger] d1[j],
        ) by {
            if j == out {
                assert(begin <= i < out);
                let _ = src0[i];
                assert(d0[i] == s[src0[i]]);
                assert(le(d0[i], s[r]));
            }
        }
        if stable {
            assert forall|i: int, j: int|
                begin <= i < j < out + 1 && le(#[trigger] d1[j], #[trigger] d1[i]) implies p1[i]
                < p1[j] by {
                if j == out {
                    let si = src0[i];
                    assert(d1[i] == s[si]);
                    if si < middle {
                        assert(lo[si] <= pos[si] < hi[si]);
                        assert(lo[r] <= pos[r] < hi[r]);
                    } else {
                        assert(si < r);
                        assert(lo[si] == lo[r]);
                        assert(le(s[r], s[si]));
                        assert(pos[si] < pos[r]);
                    }
                }
            }
        }
        assert(merging(le, stable, s, pos, d1, src1, p1, lo21, hi21, begin, middle, end, l, r + 1, out + 1));
    }
}

proof fn lemma_block_finished<T>(
    le: spec_fn(T, T) -> bool,
    stable: bool,
    s: Seq<T>,
    orig: Seq<T>,
    pos: Seq<int>,
    lo: Seq<int>,
    hi: Seq<int>,
    d: Seq<T>,
    src: Seq<int>,
    p: Seq<int>,
    lo2: Seq<int>,
    hi2: Seq<int>,
    begin: int,
    middle: int,
    end: int,
    w2: int,
)
    requires
        blockwise(le, stable, s, orig, pos, lo, hi),
        d.len() == s.len(),
        0 <= begin < middle <= end <= s.len(),
        end == smin(begin + w2, s.len() as int),
        block_pair(lo, hi, begin, middle, end),
        merged_prefix(le, stable, d, orig, p, lo2, hi2, w2, begin),
        merging(le, stable, s, pos, d, src, p, lo2, hi2, begin, middle, end, middle, end, end),
    ensures
        merged_prefix(le, stable, d, orig, p, lo2, hi2, w2, end),
{
    if begin == 0 {
        let _ = src[0];
    }
    assert forall|k: int| begin <= k < end implies begin <= #[trigger] p[k] < end by {
        let sk = src[k];
        assert(lo[sk] <= pos[sk] < hi[sk]);
    }
    assert forall|k: int| #![trigger lo2[k]] 0 <= k < end implies {
        &&& lo2[k] <= k < hi2[k] <= end
        &&& hi2[k] == smin(lo2[k] + w2, d.len() as int)
        &&& (hi2[k] < end ==> lo2[hi2[k]] == hi2[k])
        &&& lo2[k] <= p[k] < hi2[k]
        &&& d[k] == orig[p[k]]
    } by {
        if k >= begin {
            let _ = src[k];
            let sk = src[k];
            assert(d[k] == s[sk]);
            assert(s[sk] == orig[pos[sk]]);
            assert(hi2[k] == end);
        } else {
            assert(lo2[k] <= k < hi2[k] <= begin);
            if hi2[k] == begin {
                let _ = src[begin];
                assert(lo2[begin] == begin);
            } else {
                assert(lo2[hi2[k]] == hi2[k]);
            }
        }
    }
    assert forall|k: int, j: int| 0 <= k < end && lo2[k] <= j < hi2[k] implies #[trigger] lo2[j]
        == #[trigger] lo2[k] by {
        if k >= begin {
            let _ = src[k];
            let _ = src[j];
            assert(lo2[k] == begin && hi2[k] == end);
            assert(lo2[j] == begin);
        } else {
            assert(lo2[k] <= k < hi2[k] <= begin);
        }
    }
    assert forall|i: int, j: int| 0 <= i < j < end implies #[trigger] p[i] != #[trigger] p[j] by {
        if i >= begin {
            assert(src[i] != src[j]);
            assert(p[i] == pos[src[i]]);
            assert(p[j] == pos[src[j]]);
            if src[i] < src[j] {
                assert(pos[src[i]] != pos[src[j]]);
            } else {
                assert(pos[src[j]] != pos[src[i]]);
            }
        } else if j >= begin {
            let _ = lo2[i];
            assert(p[i] < hi2[i]);
            assert(hi2[i] <= begin);
            assert(begin <= p[j]);
        }
    }
    assert forall|i: int, j: int| 0 <= i < j < end && lo2[i] == lo2[j] implies le(
        #[trigger] d[i],
        #[trigger] d[j],
    ) by {
        if j >= begin {
            let _ = src[j];
            if i < begin {
                assert(lo2[i] <= i);
            } else {
                let _ = src[i];
            }
        }
    }
    if stable {
        assert forall|i: int, j: int|
            0 <= i < j < end && lo2[i] == lo2[j] && le(#[trigger] d[j], #[trigger] d[i]) implies p[i]
            < p[j] by {
            if j >= begin {
                let _ = src[j];
                if i < begin {
                    assert(lo2[i] <= i);
                } else {
                    let _ = src[i];
                }
            }
        }
    }
}

/// One checked merge pass: adjacent blocks of width `width` of `source` are
/// merged, left block first on ties, into blocks of twice the width in
/// `destination`.
#[verifier::rlimit(100)]
#[verifier::spinoff_prover]
fn merge_pass<T: Copy, P: Fn(&T, &T) -> Precedence, I: InterruptCheck>(
    source: &Vec<T>,
    destination: &mut Vec<T>,
    width: usize,
    order: &P,
    interrupt: &mut I,
    phase: &'static str,
    Ghost(le): Ghost<spec_fn(T, T) -> bool>,
    Ghost(stable): Ghost<bool>,
    Ghost(orig): Ghost<Seq<T>>,
    Ghost(pos): Ghost<Seq<int>>,
    Ghost(lo): Ghost<Seq<int>>,
    Ghost(hi): Ghost<Seq<int>>,
) -> (r: (Result<()>, Ghost<(Seq<int>, Seq<int>, Seq<int>)>))
    requires
        old(destination).len() == source.len(),
        width > 0,
        total_preorder(le),
        decides(*order, le),
        tiled(source.len() as int, width as int, lo, hi),
        blockwise(le, stable, source@, orig, pos, lo, hi),
    ensures
        final(destination).len() == source.len(),
        old(interrupt).inert() ==> r.0 is Ok && final(interrupt).inert(),
        r.0 is Ok ==> tiled(source.len() as int, doubled(width as int), r.1@.1, r.1@.2),
        r.0 is Ok ==> blockwise(le, stable, final(destination)@, orig, r.1@.0, r.1@.1, r.1@.2),
        r.0 matches Err(e) ==> refused_at(&*final(interrupt), phase, e),
{
    let len = source.len();
    let width2: usize = match width.checked_mul(2) {
        Some(w) => w,
        None => usize::MAX,
    };
    let ghost n = len as int;
    let ghost w2 = width2 as int;
    assert(w2 == doubled(width as int));
    let ghost inert0 = interrupt.inert();
    let ghost mut pos2: Seq<int> = pos;
    let ghost mut lo2: Seq<int> = lo;
    let ghost mut hi2: Seq<int> = hi;
    let mut begin: usize = 0;
    while begin < len
        invariant
            len == source.len(),
            destination.len() == len,
            n == len,
            w2 == doubled(width as int),
            width > 0,
            width2 == w2,
            begin <= len,
            begin < len ==> lo[begin as int] == begin,
            inert0 ==> interrupt.inert(),
            inert0 == old(interrupt).inert(),
            total_preorder(le),
            decides(*order, le),
            tiled(n, width as int, lo, hi),
            blockwise(le, stable, source@, orig, pos, lo, hi),
            merged_prefix(le, stable, destination@, orig, pos2, lo2, hi2, w2, begin as int),
        decreases len - begin,
    {
        let middle: usize = if begin.saturating_add(width) < len {
            begin.saturating_add(width)
        } else {
            len
        };
        let end: usize = if begin.saturating_add(width2) < len {
            begin.saturating_add(width2)
        } else {
            len
        };
        proof {
            assert(lo[begin as int] <= begin < hi[begin as int]);
            assert(hi[begin as int] == middle);
            assert forall|k: int| begin <= k < middle implies #[trigger] lo[k] == begin && hi[k] == middle by {
                assert(lo[begin as int] <= k < hi[begin as int]);
                assert(lo[k] == lo[begin as int]);
                assert(hi[k] == smin(lo[k] + width, n));
            }
            if middle < len {
                assert(lo[middle as int] == middle);
                assert(hi[middle as int] == end);
                assert forall|k: int| middle <= k < end implies #[trigger] lo[k] == middle && hi[k]
                    == end by {
                    assert(lo[middle as int] <= k < hi[middle as int]);
                    assert(lo[k] == lo[middle as int]);
                    assert(hi[k] == smin(lo[k] + width, n));
                }
                if end < len {
                    assert(lo[end as int] == end);
                }
            } else {
                assert(end == len);
            }
            assert(block_pair(lo, hi, begin as int, middle as int, end as int));
        }
        let mut left: usize = begin;
        let mut right: usize = middle;
        let mut output: usize = begin;
        let ghost mut src_of: Seq<int> = Seq::new(len as nat, |k: int| 0int);
        while output < end
            invariant
                len == source.len(),
                destination.len() == len,
                n == len,
                w2 == doubled(width as int),
                begin < middle <= end <= len,
                middle == smin(begin + width, n),
                end == smin(begin + w2, n),
                begin <= left <= middle <= right <= end,
                output == left + right - middle,
                src_of.len() == len,
                inert0 ==> interrupt.inert(),
                inert0 == old(interrupt).inert(),
                total_preorder(le),
                decides(*order, le),
                blockwise(le, stable, source@, orig, pos, lo, hi),
                block_pair(lo, hi, begin as int, middle as int, end as int),
                merged_prefix(le, stable, destination@, orig, pos2, lo2, hi2, w2, begin as int),
                pos2.len() == len,
                lo2.len() == len,
                hi2.len() == len,
                merging(
                    le,
                    stable,
                    source@,
                    pos,
                    destination@,
                    src_of,
                    pos2,
                    lo2,
                    hi2,
                    begin as int,
                    middle as int,
                    end as int,
                    left as int,
                    right as int,
                    output as int,
                ),
            decreases end - output,
        {
            let ghost before = *interrupt;
            match checkpoint_chunk(interrupt, output - begin, phase) {
                Ok(()) => {},
                Err(e) => {
                    proof {
                        assert(before.checkpoint_outcome(&*interrupt, phase, Err(e)));
                    }
                    return (Err(e), Ghost((pos2, lo2, hi2)));
                },
            }
            let take_left = if right == end {
                true
            } else if left < middle {
                let p = order(&source[left], &source[right]);
                match p {
                    Precedence::After => false,
                    _ => true,
                }
            } else {
                false
            };
            let ghost d0 = destination@;
            let ghost src_old = src_of;
            let ghost pos2_old = pos2;
            let ghost lo2_old = lo2;
            let ghost hi2_old = hi2;
            if take_left {
                let x = source[left];
                proof {
                    assert(left < middle);
                    if right < end {
                        assert(le(source@[left as int], source@[right as int]));
                    }
                    if left + 1 < middle {
                        assert(le(source@[left as int], source@[left + 1]));
                    }
                }
                destination.set(output, x);
                proof {
                    src_of = src_of.update(output as int, left as int);
                    pos2 = pos2.update(output as int, pos[left as int]);
                    lo2 = lo2.update(output as int, begin as int);
                    hi2 = hi2.update(output as int, end as int);
                }
                left = left + 1;
            } else {
                let x = source[right];
                proof {
                    assert(right < end);
                    if left < middle {
                        assert(!le(source@[(left as int)], source@[right as int]));
                        assert(le(source@[right as int], source@[left as int]));
                    }
                    if right + 1 < end {
                        assert(le(source@[right as int], source@[right + 1]));
                    }
                }
                destination.set(output, x);
                proof {
                    src_of = src_of.update(output as int, right as int);
                    pos2 = pos2.update(output as int, pos[right as int]);
                    lo2 = lo2.update(output as int, begin as int);
                    hi2 = hi2.update(output as int, end as int);
                }
                right = right + 1;
            }
            proof {
                lemma_merge_step(
                    le,
                    stable,
                    source@,
                    orig,
                    pos,
                    lo,
                    hi,
                    d0,
                    destination@,
                    src_old,
                    src_of,
                    pos2_old,
                    pos2,
                    lo2_old,
                    lo2,
                    hi2_old,
                    hi2,
                    begin as int,
                    middle as int,
                    end as int,
                    output as int,
                    if take_left { left - 1 } else { left as int },
                    if take_left { right as int } else { right - 1 },
                    take_left,
                    w2,
                );
            }
            output = output + 1;
        }
        proof {
            lemma_block_finished(
                le,
                stable,
                source@,
                orig,
                pos,
                lo,
                hi,
                destination@,
                src_of,
                pos2,
                lo2,
                hi2,
                begin as int,
                middle as int,
                end as int,
                w2,
            );
        }
        begin = end;
    }
    proof {
        lemma_merged_prefix_complete(le, stable, destination@, orig, pos2, lo2, hi2, w2);
    }
    (Ok(()), Ghost((pos2, lo2, hi2)))
}

proof fn lemma_run_finished<T>(
    le: spec_fn(T, T) -> bool,
    stable: bool,
    old_values: Seq<T>,
    new_values: Seq<T>,
    orig: Seq<T>,
    pos: Seq<int>,
    lo: Seq<int>,
    hi: Seq<int>,
    q: Seq<int>,
    start: usize,
    end: usize,
    w: int,
) -> (r: (Seq<int>, Seq<int>, Seq<int>))
    requires
        merged_prefix(le, stable, old_values, orig, pos, lo, hi, w, start as int),
        forall|k: int| start <= k < old_values.len() ==> #[trigger] old_values[k] == orig[k],
        range_rearranged(new_values, old_values, q, start, end),
        range_sorted(le, new_values, start, end),
        stable ==> range_keeps_ties(le, new_values, q, start, end),
        start < end <= old_values.len(),
        end == smin(start + w, old_values.len() as int),
    ensures
        merged_prefix(le, stable, new_values, orig, r.0, r.1, r.2, w, end as int),
        forall|k: int| end <= k < new_values.len() ==> #[trigger] new_values[k] == orig[k],
{
    let n = old_values.len() as int;
    let pos2 = Seq::new(n as nat, |k: int| if start <= k < end { q[k] } else { pos[k] });
    let lo2 = Seq::new(n as nat, |k: int| if start <= k < end { start as int } else { lo[k] });
    let hi2 = Seq::new(n as nat, |k: int| if start <= k < end { end as int } else { hi[k] });
    assert forall|k: int| end <= k < n implies #[trigger] new_values[k] == orig[k] by {
        assert(new_values[k] == old_values[k]);
    }
    assert forall|k: int| #![trigger lo2[k]] 0 <= k < end implies {
        &&& lo2[k] <= k < hi2[k] <= end
        &&& hi2[k] == smin(lo2[k] + w, n)
        &&& (hi2[k] < end ==> lo2[hi2[k]] == hi2[k])
        &&& lo2[k] <= pos2[k] < hi2[k]
        &&& new_values[k] == orig[pos2[k]]
    } by {
        if k >= start {
            assert(new_values[k] == old_values[q[k]]);
            assert(start <= q[k] < end);
        } else {
            let _ = lo[k];
            assert(new_values[k] == old_values[k]);
            if hi[k] < start {
                assert(lo[hi[k]] == hi[k]);
            }
        }
    }
    assert forall|k: int, j: int| 0 <= k < end && lo2[k] <= j < hi2[k] implies #[trigger] lo2[j]
        == #[trigger] lo2[k] by {
        if k < start {
            let _ = lo[k];
        }
    }
    assert forall|i: int, j: int| 0 <= i < j < end implies #[trigger] pos2[i] != #[trigger] pos2[j] by {
        if j < start {
        } else if i < start {
            let _ = lo[i];
            assert(pos2[i] < start);
            assert(start <= q[j]);
        } else {
            assert(q[i] != q[j]);
        }
    }
    assert forall|i: int, j: int| 0 <= i < j < end && lo2[i] == lo2[j] implies le(
        #[trigger] new_values[i],
        #[trigger] new_values[j],
    ) by {
        if i < start {
            let _ = lo[i];
            if j >= start {
                let _ = lo[j];
            } else {
                assert(new_values[i] == old_values[i]);
                assert(new_values[j] == old_values[j]);
            }
        }
    }
    if stable {
        assert forall|i: int, j: int|
            0 <= i < j < end && lo2[i] == lo2[j] && le(#[trigger] new_values[j], #[trigger] new_values[i]) implies pos2[i] < pos2[j] by {
            if i < start {
                let _ = lo[i];
                if j >= start {
                    let _ = lo[j];
                } else {
                    assert(new_values[i] == old_values[i]);
                    assert(new_values[j] == old_values[j]);
                }
            }
        }
    }
    if start == 0 {
        assert(lo2[0] == 0);
    }
    (pos2, lo2, hi2)
}

/// Sorts consecutive runs of `run` elements by the standard library, with a
/// checkpoint before and after each run.
#[verifier::rlimit(100)]
#[verifier::spinoff_prover]
fn sort_runs<T: Copy, P: Fn(&T, &T) -> Precedence, I: InterruptCheck>(
    values: &mut Vec<T>,
    order: &P,
    stable: bool,
    run: usize,
    interrupt: &mut I,
    phase: &'static str,
    Ghost(le): Ghost<spec_fn(T, T) -> bool>,
) -> (r: (Result<()>, Ghost<(Seq<int>, Seq<int>, Seq<int>)>))
    requires
        run > 0,
        total_preorder(le),
        decides(*order, le),
    ensures
        final(values).len() == old(values).len(),
        old(interrupt).inert() ==> r.0 is Ok && final(interrupt).inert(),
        r.0 is Ok ==> tiled(old(values).len() as int, run as int, r.1@.1, r.1@.2),
        r.0 is Ok ==> blockwise(le, stable, final(values)@, old(values)@, r.1@.0, r.1@.1, r.1@.2),
        r.0 matches Err(e) ==> refused_at(&*final(interrupt), phase, e),
{
    let ghost orig = values@;
    let ghost inert0 = interrupt.inert();
    let len = values.len();
    let ghost n = len as int;
    proof {
        assert(total_preorder(le) && decides(*order, le));
        assert(valid_order(*order));
    }
    let ghost mut pos: Seq<int> = Seq::new(n as nat, |k: int| k);
    let ghost mut lo: Seq<int> = Seq::new(n as nat, |k: int| k);
    let ghost mut hi: Seq<int> = Seq::new(n as nat, |k: int| k + 1);
    let mut start: usize = 0;
    while start < len
        invariant
            values.len() == len,
            len == old(values).len(),
            n == len,
            run > 0,
            start <= len,
            orig.len() == len,
            inert0 == old(interrupt).inert(),
            inert0 ==> interrupt.inert(),
            total_preorder(le),
            decides(*order, le),
            valid_order(*order),
            merged_prefix(le, stable, values@, orig, pos, lo, hi, run as int, start as int),
            forall|k: int| start <= k < len ==> #[trigger] values@[k] == orig[k],
        decreases len - start,
    {
        let end: usize = if start.saturating_add(run) < len {
            start.saturating_add(run)
        } else {
            len
        };
        let ghost before = *interrupt;
        match interrupt.checkpoint(phase) {
            Ok(()) => {},
            Err(e) => {
                proof {
                    assert(before.checkpoint_outcome(&*interrupt, phase, Err(e)));
                }
                return (Err(e), Ghost((pos, lo, hi)));
            },
        }
        let ghost before = values@;
        if stable {
            std_sort_range_stable(values, start, end, order);
        } else {
            std_sort_range_unstable(values, start, end, order);
        }
        proof {
            let q = choose|q: Seq<int>|
                range_rearranged(values@, before, q, start, end)
                    && range_sorted_for_order(*order, stable, values@, q, start, end);
            assert(range_sorted_for_order(*order, stable, values@, q, start, end));
            assert(decides(*order, le));
            let r = lemma_run_finished(
                le,
                stable,
                before,
                values@,
                orig,
                pos,
                lo,
                hi,
                q,
                start,
                end,
                run as int,
            );
            pos = r.0;
            lo = r.1;
            hi = r.2;
        }
        let ghost before = *interrupt;
        match interrupt.checkpoint(phase) {
            Ok(()) => {},
            Err(e) => {
                proof {
                    assert(before.checkpoint_outcome(&*interrupt, phase, Err(e)));
                }
                return (Err(e), Ghost((pos, lo, hi)));
            },
        }
        start = end;
    }
    proof {
        lemma_merged_prefix_complete(le, stable, values@, orig, pos, lo, hi, run as int);
    }
    (Ok(()), Ghost((pos, lo, hi)))
}

/// Merges sorted blocks of width `width` back and forth between `values` and
/// `buffer` until one block remains, leaving the result in `values`.
#[verifier::rlimit(100)]
#[verifier::spinoff_prover]
fn merge_all<T: Copy, P: Fn(&T, &T) -> Precedence, I: InterruptCheck>(
    values: &mut Vec<T>,
    buffer: &mut Vec<T>,
    width: usize,
    order: &P,
    stable: bool,
    interrupt: &mut I,
    phase: &'static str,
    Ghost(le): Ghost<spec_fn(T, T) -> bool>,
    Ghost(orig): Ghost<Seq<T>>,
    Ghost(pos): Ghost<Seq<int>>,
    Ghost(lo): Ghost<Seq<int>>,
    Ghost(hi): Ghost<Seq<int>>,
) -> (r: Result<()>)
    requires
        width > 0,
        old(buffer).len() == old(values).len(),
        total_preorder(le),
        decides(*order, le),
        tiled(old(values).len() as int, width as int, lo, hi),
        blockwise(le, stable, old(values)@, orig, pos, lo, hi),
    ensures
        final(values).len() == old(values).len(),
        old(interrupt).inert() ==> r is Ok && final(interrupt).inert(),
        r is Ok ==> exists|p: Seq<int>| sorts(le, stable, final(values)@, orig, p),
        r matches Err(e) ==> refused_at(&*final(interrupt), phase, e),
{
    let len = values.len();
    let ghost n = len as int;
    let ghost inert0 = interrupt.inert();
    let ghost mut pos = pos;
    let ghost mut lo = lo;
    let ghost mut hi = hi;
    let mut source_is_values = true;
    let mut width = width;
    while width < len
        invariant
            values.len() == len,
            len == old(values).len(),
            buffer.len() == len,
            n == len,
            width > 0,
            inert0 == old(interrupt).inert(),
            inert0 ==> interrupt.inert(),
            total_preorder(le),
            decides(*order, le),
            tiled(n, width as int, lo, hi),
            source_is_values ==> blockwise(le, stable, values@, orig, pos, lo, hi),
            !source_is_values ==> blockwise(le, stable, buffer@, orig, pos, lo, hi),
        decreases usize::MAX - width,
    {
        if source_is_values {
            let (result, Ghost(next)) = merge_pass(
                values,
                buffer,
                width,
                order,
                interrupt,
                phase,
                Ghost(le),
                Ghost(stable),
                Ghost(orig),
                Ghost(pos),
                Ghost(lo),
                Ghost(hi),
            );
            match result {
                Ok(()) => {},
                Err(e) => {
                    return Err(e);
                },
            }
            proof {
                pos = next.0;
                lo = next.1;
                hi = next.2;
            }
        } else {
            let (result, Ghost(next)) = merge_pass(
                buffer,
                values,
                width,
                order,
                interrupt,
                phase,
                Ghost(le),
                Ghost(stable),
                Ghost(orig),
                Ghost(pos),
                Ghost(lo),
                Ghost(hi),
            );
            match result {
                Ok(()) => {},
                Err(e) => {
                    return Err(e);
                },
            }
            proof {
                pos = next.0;
                lo = next.1;
                hi = next.2;
            }
        }
        source_is_values = !source_is_values;
        width = match width.checked_mul(2) {
            Some(w) => w,
            None => usize::MAX,
        };
    }
    if !source_is_values {
        let mut index: usize = 0;
        while index < len
            invariant
                values.len() == len,
                len == old(values).len(),
                buffer.len() == len,
                index <= len,
                forall|k: int| 0 <= k < index ==> #[trigger] values@[k] == buffer@[k],
                inert0 == old(interrupt).inert(),
                inert0 ==> interrupt.inert(),
            decreases len - index,
        {
            let ghost before = *interrupt;
            match checkpoint_chunk(interrupt, index, phase) {
                Ok(()) => {},
                Err(e) => {
                    proof {
                        assert(before.checkpoint_outcome(&*interrupt, phase, Err(e)));
                    }
                    return Err(e);
                },
            }
            values.set(index, buffer[index]);
            index = index + 1;
        }
        assert(values@ == buffer@);
    }
    proof {
        lemma_single_block(le, stable, values@, orig, pos, lo, hi, width as int);
    }
    Ok(())
}

/// Sorts `values` by the order that `order` decides: runs of at most
/// [`INTERRUPTIBLE_SORT_RUN`] elements are sorted by the standard library,
/// then checked merge passes of doubling width combine them. Every bounded
/// amount of work is preceded by a checkpoint.
pub fn sort_by_precedence<T: Copy, P: Fn(&T, &T) -> Precedence, I: InterruptCheck>(
    values: &mut Vec<T>,
    order: &P,
    stable: bool,
    interrupt: &mut I,
    phase: &'static str,
    Ghost(le): Ghost<spec_fn(T, T) -> bool>,
) -> (r: Result<()>)
    requires
        total_preorder(le),
        decides(*order, le),
    ensures
        final(values).len() == old(values).len(),
        r is Ok ==> exists|pos: Seq<int>| sorts(le, stable, final(values)@, old(values)@, pos),
        old(interrupt).inert() ==> final(interrupt).inert(),
        old(interrupt).inert() && old(values).len() <= INTERRUPTIBLE_SORT_RUN ==> r is Ok,
        r matches Err(e) ==> !old(interrupt).inert() || (e.phase == phase && (e.code
            == ErrorCode::ResourceLimit || e.code == ErrorCode::AllocationFailed)),
        r matches Err(e) ==> refused_at(&*final(interrupt), phase, e) || (e.phase == phase && (e.code
            == ErrorCode::ResourceLimit || e.code == ErrorCode::AllocationFailed)),
{
    let ghost orig = values@;
    let ghost inert0 = interrupt.inert();
    let len = values.len();
    if len < 2 {
        let ghost before = *interrupt;
        match interrupt.checkpoint(phase) {
            Ok(()) => {},
            Err(e) => {
                proof {
                    assert(before.checkpoint_outcome(&*interrupt, phase, Err(e)));
                }
                return Err(e);
            },
        }
        proof {
            let pos = Seq::new(len as nat, |k: int| k);
            assert(sorts(le, stable, values@, orig, pos));
        }
        return Ok(());
    }
    let run: usize = INTERRUPTIBLE_SORT_RUN;
    let (result, Ghost(state)) = sort_runs(values, order, stable, run, interrupt, phase, Ghost(le));
    match result {
        Ok(()) => {},
        Err(e) => {
            return Err(e);
        },
    }
    if len <= run {
        proof {
            lemma_single_block(le, stable, values@, orig, state.0, state.1, state.2, run as int);
        }
        return Ok(());
    }
    let mut buffer: Vec<T> = fallible_sort_buffer(len, phase)?;
    let mut index: usize = 0;
    while index < len
        invariant
            values.len() == len,
            len == old(values).len(),
            index <= len,
            buffer@ == values@.subrange(0, index as int),
            inert0 == old(interrupt).inert(),
            inert0 ==> interrupt.inert(),
        decreases len - index,
    {
        let ghost before = *interrupt;
        match checkpoint_chunk(interrupt, index, phase) {
            Ok(()) => {},
            Err(e) => {
                proof {
                    assert(before.checkpoint_outcome(&*interrupt, phase, Err(e)));
                }
                return Err(e);
            },
        }
        buffer.push(values[index]);
        index = index + 1;
    }
    assert(buffer@ == values@);
    let result = merge_all(
        values,
        &mut buffer,
        run,
        order,
        stable,
        interrupt,
        phase,
        Ghost(le),
        Ghost(orig),
        Ghost(state.0),
        Ghost(state.1),
        Ghost(state.2),
    );
    match result {
        Ok(()) => {},
        Err(e) => {
            return Err(e);
        },
    }
    let ghost before = *interrupt;
    match interrupt.checkpoint(phase) {
        Ok(()) => {},
        Err(e) => {
            proof {
                assert(before.checkpoint_outcome(&*interrupt, phase, Err(e)));
            }
            return Err(e);
        },
    }
    Ok(())
}

/// Position `j` is the image of some position in `[0, n)`.
pub open spec fn hit(pos: Seq<int>, n: int, j: int) -> bool {
    exists|k: int| 0 <= k < n && #[trigger] pos[k] == j
}

/// An injective map of `[0, n)` into itself is onto: every position is the
/// image of some position.
pub proof fn lemma_injective_onto(pos: Seq<int>, n: int)
    requires
        injective_in(pos, n),
    ensures
        forall|j: int| 0 <= j < n ==> #[trigger] hit(pos, n, j),
{
    let range = vstd::set_lib::set_int_range(0, n);
    let f = |k: int| pos[k];
    let image = range.map(f);
    vstd::set_lib::lemma_int_range(0, n);
    assert(vstd::relations::injective_on(f, range)) by {
        assert forall|a: int, b: int| range.contains(a) && range.contains(b) && #[trigger] f(a)
            == #[trigger] f(b) implies a == b by {
            if a < b {
                assert(pos[a] != pos[b]);
            } else if b < a {
                assert(pos[b] != pos[a]);
            }
        }
    }
    vstd::set_lib::lemma_map_size(range, image, f);
    assert(image.subset_of(range)) by {
        assert forall|j: int| image.contains(j) implies range.contains(j) by {
            let k = choose|k: int| range.contains(k) && f(k) == j;
            assert(0 <= pos[k] < n);
        }
    }
    vstd::set_lib::lemma_subset_equality(image, range);
    assert forall|j: int| 0 <= j < n implies #[trigger] hit(pos, n, j) by {
        assert(range.contains(j));
        assert(image.contains(j));
        let k = choose|k: int| range.contains(k) && f(k) == j;
        assert(pos[k] == j);
    }
}

/// An injective map of `[0, m)` into `[0, n)` needs `m <= n`.
pub proof fn lemma_injective_bound(pos: Seq<int>, m: int, n: int)
    requires
        0 <= m,
        0 <= n,
        pos.len() == m,
        forall|k: int| 0 <= k < m ==> 0 <= #[trigger] pos[k] < n,
        forall|i: int, j: int| 0 <= i < j < m ==> #[trigger] pos[i] != #[trigger] pos[j],
    ensures
        m <= n,
{
    let range = vstd::set_lib::set_int_range(0, m);
    let f = |k: int| pos[k];
    let image = range.map(f);
    vstd::set_lib::lemma_int_range(0, m);
    assert(vstd::relations::injective_on(f, range)) by {
        assert forall|a: int, b: int| range.contains(a) && range.contains(b) && #[trigger] f(a)
            == #[trigger] f(b) implies a == b by {
            if a < b {
                assert(pos[a] != pos[b]);
            } else if b < a {
                assert(pos[b] != pos[a]);
            }
        }
    }
    vstd::set_lib::lemma_map_size(range, image, f);
    if n > 0 {
        let target = vstd::set_lib::set_int_range(0, n);
        vstd::set_lib::lemma_int_range(0, n);
        assert(image.subset_of(target)) by {
            assert forall|j: int| image.contains(j) implies target.contains(j) by {
                let k = choose|k: int| range.contains(k) && f(k) == j;
                assert(0 <= pos[k] < n);
            }
        }
        vstd::set_lib::lemma_len_subset(image, target);
        assert(image.len() == range.len());
        assert(range.len() == m);
        assert(target.len() == n);
    } else if m > 0 {
        assert(0 <= pos[0] < n);
    }
}

/// Allocates an empty merge buffer with room for `len` elements. The byte size
/// is checked before any allocation is attempted.
pub fn fallible_sort_buffer<T>(len: usize, phase: &'static str) -> (r: Result<Vec<T>>)
    ensures
        r matches Ok(v) ==> v@.len() == 0,
        r matches Err(e) ==> e.phase == phase && (e.code == ErrorCode::ResourceLimit
            || e.code == ErrorCode::AllocationFailed),
        r matches Err(e) ==> (e.code == ErrorCode::ResourceLimit <==> len
            * vstd::layout::size_of::<T>() > usize::MAX),
        len * vstd::layout::size_of::<T>() > usize::MAX ==> r is Err,
{
    let size = core::mem::size_of::<T>();
    if len.checked_mul(size).is_none() {
        return Err(
            BackendError::new(ErrorCode::ResourceLimit, phase, "sort buffer byte-size overflow"),
        );
    }
    let mut buffer: Vec<T> = Vec::new();
    match reserve_exact(&mut buffer, len, phase, "could not allocate the sort buffer") {
        Ok(()) => Ok(buffer),
        Err(e) => Err(e),
    }
}

} // verus!
