//! NEON kernels: eight lanes per vector, with native unsigned comparisons.

use crate::rows::Offset;
use crate::search::prefilter::cover::ProbeCover;
use crate::search::prefilter::scan::policy::{cost_of_shape, select_neon, CoverShape, NeonKernel};
use crate::search::prefilter::scan::probe::{
    scan_blocks, scan_blocks_twice, Compare, HitMaterialization, Probe, WrapRange,
};
use crate::search::prefilter::scan::sink::{can_scan, scanned};
use crate::types::Token;
use vstd::prelude::*;

verus! {

/// Point-only covers with up to eight probes use a two-vector schedule. `N` is the
/// number of points, or zero where the shapes share one instantiation.
fn scan_neon_few_points<O: Offset, const N: usize>(
    codes: &[Token],
    row_offsets: &[O],
    pf: &ProbeCover,
    sparse_row_mapping: bool,
    out: &mut Vec<usize>,
)
    requires
        can_scan(codes@, row_offsets@, pf),
        1 <= pf.point_list().len() <= 8,
        pf.range_list().len() == 0,
        N == 0 || pf.point_list().len() == N,
    ensures
        scanned(old(out)@, final(out)@, codes@, row_offsets@, pf),
{
    let probe = Compare::<WrapRange>::new(pf);
    scan_blocks(codes, row_offsets, pf, sparse_row_mapping, 16, HitMaterialization::StoredLanes, &probe, out);
}

/// Point-only covers with nine to sixteen probes.
pub fn scan_neon_many_points<O: Offset>(
    codes: &[Token],
    row_offsets: &[O],
    pf: &ProbeCover,
    sparse_row_mapping: bool,
    out: &mut Vec<usize>,
)
    requires
        can_scan(codes@, row_offsets@, pf),
        9 <= pf.point_list().len() <= 16,
        pf.range_list().len() == 0,
    ensures
        scanned(old(out)@, final(out)@, codes@, row_offsets@, pf),
{
    let probe = Compare::<WrapRange>::new(pf);
    scan_blocks(codes, row_offsets, pf, sparse_row_mapping, 16, HitMaterialization::StoredLanes, &probe, out);
}

/// Point-only covers with up to eight probes, by their number.
pub fn scan_neon_points<O: Offset>(
    codes: &[Token],
    row_offsets: &[O],
    pf: &ProbeCover,
    sparse_row_mapping: bool,
    out: &mut Vec<usize>,
)
    requires
        can_scan(codes@, row_offsets@, pf),
        1 <= pf.point_list().len() <= 8,
        pf.range_list().len() == 0,
    ensures
        scanned(old(out)@, final(out)@, codes@, row_offsets@, pf),
{
    match pf.points().len() {
        1 => scan_neon_few_points::<O, 1>(codes, row_offsets, pf, sparse_row_mapping, out),
        2 => scan_neon_few_points::<O, 2>(codes, row_offsets, pf, sparse_row_mapping, out),
        3 => scan_neon_few_points::<O, 3>(codes, row_offsets, pf, sparse_row_mapping, out),
        _ => scan_neon_few_points::<O, 0>(codes, row_offsets, pf, sparse_row_mapping, out),
    }
}

/// A single range.
pub fn scan_neon_one_range<O: Offset>(
    codes: &[Token],
    row_offsets: &[O],
    pf: &ProbeCover,
    sparse_row_mapping: bool,
    out: &mut Vec<usize>,
)
    requires
        can_scan(codes@, row_offsets@, pf),
        pf.point_list().len() == 0,
        pf.range_list().len() == 1,
    ensures
        scanned(old(out)@, final(out)@, codes@, row_offsets@, pf),
{
    let probe = Compare::<WrapRange>::new(pf);
    scan_blocks(codes, row_offsets, pf, sparse_row_mapping, 16, HitMaterialization::StoredLanes, &probe, out);
}

/// Mixed covers of an exact shape.
pub fn scan_neon_fixed_mixed<O: Offset, const POINTS: usize, const RANGES: usize>(
    codes: &[Token],
    row_offsets: &[O],
    pf: &ProbeCover,
    sparse_row_mapping: bool,
    out: &mut Vec<usize>,
)
    requires
        can_scan(codes@, row_offsets@, pf),
        pf.point_list().len() == POINTS,
        pf.range_list().len() == RANGES,
    ensures
        scanned(old(out)@, final(out)@, codes@, row_offsets@, pf),
{
    let probe = Compare::<WrapRange>::new(pf);
    scan_blocks(codes, row_offsets, pf, sparse_row_mapping, 16, HitMaterialization::StoredLanes, &probe, out);
}

/// One point and two ranges.
pub fn scan_neon_one_point_two_ranges<O: Offset>(
    codes: &[Token],
    row_offsets: &[O],
    pf: &ProbeCover,
    sparse_row_mapping: bool,
    out: &mut Vec<usize>,
)
    requires
        can_scan(codes@, row_offsets@, pf),
        pf.point_list().len() == 1,
        pf.range_list().len() == 2,
    ensures
        scanned(old(out)@, final(out)@, codes@, row_offsets@, pf),
{
    let probe = Compare::<WrapRange>::new(pf);
    scan_blocks(codes, row_offsets, pf, sparse_row_mapping, 16, HitMaterialization::StoredLanes, &probe, out);
}

/// Small mixed covers that are too uncommon for a kernel of their own.
pub fn scan_neon_few_mixed<O: Offset>(
    codes: &[Token],
    row_offsets: &[O],
    pf: &ProbeCover,
    sparse_row_mapping: bool,
    out: &mut Vec<usize>,
)
    requires
        can_scan(codes@, row_offsets@, pf),
        pf.range_list().len() > 0,
        cost_of_shape(pf.point_list().len() as int, pf.range_list().len() as int) <= 16,
    ensures
        scanned(old(out)@, final(out)@, codes@, row_offsets@, pf),
{
    let probe = Compare::<WrapRange>::new(pf);
    scan_blocks(codes, row_offsets, pf, sparse_row_mapping, 16, HitMaterialization::StoredLanes, &probe, out);
}

/// Arbitrary covers, with one vector per block or with two.
pub fn scan_neon_generic<O: Offset>(
    codes: &[Token],
    row_offsets: &[O],
    pf: &ProbeCover,
    sparse_row_mapping: bool,
    use_two_vectors: bool,
    out: &mut Vec<usize>,
)
    requires
        can_scan(codes@, row_offsets@, pf),
    ensures
        scanned(old(out)@, final(out)@, codes@, row_offsets@, pf),
{
    let probe = Compare::<WrapRange>::new(pf);
    if use_two_vectors {
        scan_blocks_twice(
            codes,
            row_offsets,
            pf,
            sparse_row_mapping,
            16,
            8,
            HitMaterialization::StoredLanes,
            &probe,
            out,
        );
    } else {
        scan_blocks(
            codes,
            row_offsets,
            pf,
            sparse_row_mapping,
            8,
            HitMaterialization::StoredLanes,
            &probe,
            out,
        );
    }
}

/// The kernel is for covers of this shape.
pub open spec fn neon_fits(kernel: NeonKernel, points: int, ranges: int) -> bool {
    match kernel {
        NeonKernel::FewPoints { points: p } => 1 <= points <= 8 && ranges == 0 && p == points,
        NeonKernel::ManyPoints => 9 <= points <= 16 && ranges == 0,
        NeonKernel::OneRange => points == 0 && ranges == 1,
        NeonKernel::Fixed(shape) => {
            &&& shape.points == points
            &&& shape.ranges == ranges
            &&& points == 1 || points == 2
            &&& ranges == 1
        },
        NeonKernel::OnePointTwoRanges => points == 1 && ranges == 2,
        NeonKernel::FewMixed => ranges > 0 && cost_of_shape(points, ranges) <= 16,
        NeonKernel::Generic { .. } => true,
    }
}

/// Runs a NEON kernel that is for covers of this shape.
pub fn execute<O: Offset>(
    codes: &[Token],
    row_offsets: &[O],
    pf: &ProbeCover,
    sparse_row_mapping: bool,
    kernel: NeonKernel,
    out: &mut Vec<usize>,
)
    requires
        can_scan(codes@, row_offsets@, pf),
        neon_fits(kernel, pf.point_list().len() as int, pf.range_list().len() as int),
    ensures
        scanned(old(out)@, final(out)@, codes@, row_offsets@, pf),
{
    match kernel {
        NeonKernel::FewPoints { .. } => scan_neon_points(
            codes,
            row_offsets,
            pf,
            sparse_row_mapping,
            out,
        ),
        NeonKernel::ManyPoints => scan_neon_many_points(
            codes,
            row_offsets,
            pf,
            sparse_row_mapping,
            out,
        ),
        NeonKernel::OneRange => scan_neon_one_range(
            codes,
            row_offsets,
            pf,
            sparse_row_mapping,
            out,
        ),
        NeonKernel::Fixed(shape) => {
            if shape.points == 1 {
                scan_neon_fixed_mixed::<O, 1, 1>(codes, row_offsets, pf, sparse_row_mapping, out)
            } else {
                scan_neon_fixed_mixed::<O, 2, 1>(codes, row_offsets, pf, sparse_row_mapping, out)
            }
        },
        NeonKernel::OnePointTwoRanges => scan_neon_one_point_two_ranges(
            codes,
            row_offsets,
            pf,
            sparse_row_mapping,
            out,
        ),
        NeonKernel::FewMixed => scan_neon_few_mixed(
            codes,
            row_offsets,
            pf,
            sparse_row_mapping,
            out,
        ),
        NeonKernel::Generic { two_vectors } => scan_neon_generic(
            codes,
            row_offsets,
            pf,
            sparse_row_mapping,
            two_vectors,
            out,
        ),
    }
}

/// The NEON kernel that the policy selects for the cover.
pub fn scan_neon<O: Offset>(
    codes: &[Token],
    row_offsets: &[O],
    pf: &ProbeCover,
    sparse_row_mapping: bool,
    out: &mut Vec<usize>,
)
    requires
        can_scan(codes@, row_offsets@, pf),
    ensures
        scanned(old(out)@, final(out)@, codes@, row_offsets@, pf),
{
    let points: usize = pf.points().len();
    let ranges: usize = pf.ranges().len();
    let kernel: NeonKernel = select_neon(CoverShape { points, ranges });
    execute(codes, row_offsets, pf, sparse_row_mapping, kernel, out);
}

} // verus!
