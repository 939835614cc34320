//! The scan of a code stream for the rows that hold a covered code.

use crate::rows::{bounds, count_rows, lemma_selected_skip, row_count, selected_rows, Offset};
use crate::search::prefilter::cover::ProbeCover;
use crate::search::prefilter::scan::avx2::{avx2_fits, execute_avx2, in_table};
use crate::search::prefilter::scan::avx512::scan_avx512;
use crate::search::prefilter::scan::neon::{execute, neon_fits};
use crate::search::prefilter::scan::policy::{
    kernel_for, select_kernel, AnalysisFacts, CoverShape, Kernel, KernelPlan, RegionFacts,
    ScanFacts, TargetCaps,
};
use crate::search::prefilter::scan::sink::{can_scan, hits, rows_with, scanned};
use crate::search::prefilter::scan::sse2::{execute_sse2, sse2_fits};
use crate::search::prefilter::scan::table::scan_rows_table;
use crate::types::Token;
use vstd::prelude::*;

verus! {

/// Why a scan was not made.
#[derive(Clone, Copy, Debug, Eq, PartialEq, Structural)]
pub enum PrefilterError {
    /// The target has no vector kernel.
    UnsupportedArchitecture,
}

/// The kernel is for covers of this shape.
pub open spec fn kernel_fits(kernel: Kernel, points: int, ranges: int) -> bool {
    match kernel {
        Kernel::Empty => points == 0 && ranges == 0,
        Kernel::RowsTable => true,
        Kernel::Neon(k) => neon_fits(k, points, ranges),
        Kernel::Sse2(k) => sse2_fits(k, points, ranges),
        Kernel::Avx2(k) => avx2_fits(k, points, ranges),
        Kernel::Avx512(_) => true,
        Kernel::Unsupported => true,
    }
}

/// The kernel that the policy selects is for covers of the shape that it was
/// given.
pub proof fn lemma_selection_fits(caps: TargetCaps, facts: ScanFacts)
    ensures
        kernel_fits(
            kernel_for(caps, facts),
            facts.analysis.shape.points as int,
            facts.analysis.shape.ranges as int,
        ),
        kernel_for(caps, facts) is Unsupported <==> caps is Unsupported && !(
        facts.analysis.shape.points == 0 && facts.analysis.shape.ranges == 0),
{
}

/// A cover without a probe hits no row.
proof fn lemma_empty_cover<O: Offset>(
    codes: Seq<Token>,
    row_offsets: Seq<O>,
    cover: &ProbeCover,
    out: Seq<usize>,
)
    requires
        cover.point_list().len() == 0,
        cover.range_list().len() == 0,
    ensures
        scanned(out, out, codes, row_offsets, cover),
{
    let b = bounds(row_offsets);
    let p = hits(cover, codes);
    let q = rows_with(b, p);
    assert forall|r: int| 0 <= r < row_count(b) implies !#[trigger] q(r) by {
        assert forall|i: int| !#[trigger] p(i) by {}
    }
    lemma_selected_skip(0, row_count(b), q);
    assert(out + selected_rows(row_count(b), q) =~= out);
}

/// Runs a kernel over a stream.
pub fn run<O: Offset>(
    plan: KernelPlan,
    codes: &[Token],
    row_offsets: &[O],
    cover: &ProbeCover,
    out: &mut Vec<usize>,
) -> (r: Result<(), PrefilterError>)
    requires
        can_scan(codes@, row_offsets@, cover),
        in_table(codes@, cover),
        kernel_fits(
            plan.kernel,
            cover.point_list().len() as int,
            cover.range_list().len() as int,
        ),
    ensures
        r is Err <==> plan.kernel is Unsupported,
        r is Ok ==> scanned(old(out)@, final(out)@, codes@, row_offsets@, cover),
        r is Err ==> final(out)@ == old(out)@,
{
    let sparse: bool = plan.row_mapping.uses_sparse_gaps();
    match plan.kernel {
        Kernel::Empty => {
            proof {
                lemma_empty_cover(codes@, row_offsets@, cover, out@);
            }
        },
        Kernel::RowsTable => scan_rows_table(codes, row_offsets, cover, out),
        Kernel::Neon(kernel) => execute(codes, row_offsets, cover, sparse, kernel, out),
        Kernel::Sse2(kernel) => execute_sse2(codes, row_offsets, cover, sparse, kernel, out),
        Kernel::Avx2(kernel) => execute_avx2(codes, row_offsets, cover, sparse, kernel, out),
        Kernel::Avx512(_) => scan_avx512(codes, row_offsets, cover, sparse, out),
        Kernel::Unsupported => {
            return Err(PrefilterError::UnsupportedArchitecture);
        },
    }
    Ok(())
}

/// Appends the ascending rows that hold a covered code, by the kernel that the
/// policy selects for the cover and the target. A cover without a probe is
/// answered on any target.
pub fn scan<O: Offset>(
    codes: &[Token],
    row_offsets: &[O],
    pf: &ProbeCover,
    covered_frequency: usize,
    caps: TargetCaps,
    out: &mut Vec<usize>,
) -> (r: Result<(), PrefilterError>)
    requires
        can_scan(codes@, row_offsets@, pf),
        in_table(codes@, pf),
    ensures
        r is Err <==> caps is Unsupported && !(pf.point_list().len() == 0 && pf.range_list().len()
            == 0),
        r is Ok ==> scanned(old(out)@, final(out)@, codes@, row_offsets@, pf),
        r is Err ==> final(out)@ == old(out)@,
{
    let points: usize = pf.points().len();
    let ranges: usize = pf.ranges().len();
    let facts = ScanFacts {
        analysis: AnalysisFacts {
            shape: CoverShape { points, ranges },
            table_len: pf.table_len(),
            covered_codes: covered_frequency,
            indexed_codes: codes.len(),
        },
        region: RegionFacts { code_count: codes.len(), row_count: count_rows(row_offsets) },
    };
    let plan = select_kernel(caps, facts);
    proof {
        lemma_selection_fits(caps, facts);
    }
    run(plan, codes, row_offsets, pf, out)
}

/// Row-at-a-time membership walk.
pub fn scan_scalar<O: Offset>(
    codes: &[Token],
    row_offsets: &[O],
    pf: &ProbeCover,
    out: &mut Vec<usize>,
)
    requires
        can_scan(codes@, row_offsets@, pf),
    ensures
        scanned(old(out)@, final(out)@, codes@, row_offsets@, pf),
{
    scan_rows_table(codes, row_offsets, pf, out);
}

} // verus!
