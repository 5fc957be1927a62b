//! When a counter shared by parallel workers reports to its progress phase.
//!
//! Workers add finished items to one shared count; reporting every item would
//! pace a tight loop by its own bookkeeping, so the phase hears of the count
//! only each time it passes a multiple of [`REPORT_STRIDE`], and once the
//! work is complete. The atomic add and the report itself are the caller's.
use vstd::prelude::*;

verus! {

/// Items between reports.
pub const REPORT_STRIDE: u64 = 4096;

/// Whether a multiple of [`REPORT_STRIDE`] lies above `before` and at or
/// below `done`.
pub open spec fn crosses_stride(before: int, done: int) -> bool {
    exists|m: int| before < #[trigger] (m * REPORT_STRIDE) <= done
}

/// After `items` more items finish on top of `before`, the new count and
/// whether to report it: when the count passes a multiple of the stride,
/// or has reached `total`.
pub fn counter_advance(before: u64, items: u64, total: u64) -> (r: (u64, bool))
    requires
        before + items <= u64::MAX,
    ensures
        r.0 == before + items,
        r.1 == (crosses_stride(before as int, before + items) || before + items >= total),
{
    let done = before + items;
    let report = done / REPORT_STRIDE != before / REPORT_STRIDE || done >= total;
    proof {
        lemma_crosses_iff(before as int, done as int);
    }
    (done, report)
}

/// For `before <= done`, the counts lie in different stride blocks exactly
/// when a multiple of the stride lies between them.
proof fn lemma_crosses_iff(before: int, done: int)
    requires
        0 <= before <= done,
    ensures
        (done / 4096 != before / 4096) == crosses_stride(before, done),
{
    let s = REPORT_STRIDE as int;
    let (qb, qd) = (before / s, done / s);
    assert(qb * s <= before < qb * s + s);
    assert(qd * s <= done < qd * s + s);
    if qd != qb {
        assert(qb < qd) by (nonlinear_arith)
            requires
                qb * s <= before,
                before <= done,
                done < qd * s + s,
                qd * s <= done,
                before < qb * s + s,
                qd != qb,
                s > 0,
        ;
        assert(before < qd * s) by (nonlinear_arith)
            requires
                before < qb * s + s,
                qb < qd,
                s > 0,
        ;
        assert(before < qd * REPORT_STRIDE <= done);
    }
    if crosses_stride(before, done) {
        let m = choose|m: int| before < #[trigger] (m * REPORT_STRIDE) <= done;
        assert(qb < m && m <= qd) by (nonlinear_arith)
            requires
                before < m * s,
                m * s <= done,
                qb * s <= before,
                done < qd * s + s,
                s > 0,
        ;
    }
}

} // verus!
