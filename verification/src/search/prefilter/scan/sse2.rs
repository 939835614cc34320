//! SSE2 kernels: eight lanes per vector, where a saturating subtraction stands
//! for an unsigned comparison.

use crate::rows::Offset;
use crate::search::prefilter::cover::ProbeCover;
use crate::search::prefilter::scan::policy::{sse2_fixed, FixedShape, Sse2Kernel};
use crate::search::prefilter::scan::probe::{
    scan_blocks, scan_blocks_twice, Compare, ExcessRange, HitMaterialization, Probe,
};
use crate::search::prefilter::scan::sink::{can_scan, scanned};
use crate::search::prefilter::scan::table::{scan_codes, scan_rows_table};
use crate::types::Token;
use vstd::prelude::*;

verus! {

/// A single point.
pub fn scan_sse2_one_point<O: Offset>(
    codes: &[Token],
    row_offsets: &[O],
    pf: &ProbeCover,
    sparse_row_mapping: bool,
    out: &mut Vec<usize>,
)
    requires
        can_scan(codes@, row_offsets@, pf),
        pf.point_list().len() == 1,
        pf.range_list().len() == 0,
    ensures
        scanned(old(out)@, final(out)@, codes@, row_offsets@, pf),
{
    let probe = Compare::<ExcessRange>::new(pf);
    scan_blocks(codes, row_offsets, pf, sparse_row_mapping, 32, HitMaterialization::CompactMask, &probe, out);
}

/// Covers of an exact shape, in blocks of eight vectors and then of four.
pub fn scan_sse2_fixed<O: Offset, const POINTS: usize, const RANGES: usize>(
    codes: &[Token],
    row_offsets: &[O],
    pf: &ProbeCover,
    sparse_row_mapping: bool,
    out: &mut Vec<usize>,
)
    requires
        can_scan(codes@, row_offsets@, pf),
        pf.point_list().len() == POINTS,
        pf.range_list().len() == RANGES,
    ensures
        scanned(old(out)@, final(out)@, codes@, row_offsets@, pf),
{
    let probe = Compare::<ExcessRange>::new(pf);
    scan_blocks_twice(codes, row_offsets, pf, sparse_row_mapping, 64, 32, HitMaterialization::CompactMask, &probe, out);
}

/// Arbitrary covers, in blocks of four vectors.
pub fn scan_sse2_generic<O: Offset>(
    codes: &[Token],
    row_offsets: &[O],
    pf: &ProbeCover,
    sparse_row_mapping: bool,
    out: &mut Vec<usize>,
)
    requires
        can_scan(codes@, row_offsets@, pf),
    ensures
        scanned(old(out)@, final(out)@, codes@, row_offsets@, pf),
{
    let probe = Compare::<ExcessRange>::new(pf);
    scan_blocks(codes, row_offsets, pf, sparse_row_mapping, 32, HitMaterialization::CompactMask, &probe, out);
}

/// Wide covers look each code up in the table.
pub fn scan_sse2_codes_table<O: Offset>(
    codes: &[Token],
    row_offsets: &[O],
    pf: &ProbeCover,
    sparse_row_mapping: bool,
    out: &mut Vec<usize>,
)
    requires
        can_scan(codes@, row_offsets@, pf),
    ensures
        scanned(old(out)@, final(out)@, codes@, row_offsets@, pf),
{
    scan_codes(codes, row_offsets, pf, sparse_row_mapping, out);
}

/// Wide dense covers walk each row.
pub fn scan_sse2_rows_table<O: Offset>(
    codes: &[Token],
    row_offsets: &[O],
    pf: &ProbeCover,
    out: &mut Vec<usize>,
)
    requires
        can_scan(codes@, row_offsets@, pf),
    ensures
        scanned(old(out)@, final(out)@, codes@, row_offsets@, pf),
{
    scan_rows_table(codes, row_offsets, pf, out);
}

/// The SSE2 kernel for the shape of a cover.
pub fn scan_sse2<O: Offset>(
    codes: &[Token],
    row_offsets: &[O],
    pf: &ProbeCover,
    sparse_row_mapping: bool,
    out: &mut Vec<usize>,
)
    requires
        can_scan(codes@, row_offsets@, pf),
    ensures
        scanned(old(out)@, final(out)@, codes@, row_offsets@, pf),
{
    let points: usize = pf.points().len();
    let ranges: usize = pf.ranges().len();
    match (points, ranges) {
        (1, 0) => scan_sse2_one_point(codes, row_offsets, pf, sparse_row_mapping, out),
        (0, 1) => scan_sse2_fixed::<O, 0, 1>(codes, row_offsets, pf, sparse_row_mapping, out),
        (2, 0) => scan_sse2_fixed::<O, 2, 0>(codes, row_offsets, pf, sparse_row_mapping, out),
        (3, 0) => scan_sse2_fixed::<O, 3, 0>(codes, row_offsets, pf, sparse_row_mapping, out),
        (1, 1) => scan_sse2_fixed::<O, 1, 1>(codes, row_offsets, pf, sparse_row_mapping, out),
        (4, 0) => scan_sse2_fixed::<O, 4, 0>(codes, row_offsets, pf, sparse_row_mapping, out),
        (2, 1) => scan_sse2_fixed::<O, 2, 1>(codes, row_offsets, pf, sparse_row_mapping, out),
        (5, 0) => scan_sse2_fixed::<O, 5, 0>(codes, row_offsets, pf, sparse_row_mapping, out),
        (0, 2) => scan_sse2_fixed::<O, 0, 2>(codes, row_offsets, pf, sparse_row_mapping, out),
        (1, 2) => scan_sse2_fixed::<O, 1, 2>(codes, row_offsets, pf, sparse_row_mapping, out),
        (3, 1) => scan_sse2_fixed::<O, 3, 1>(codes, row_offsets, pf, sparse_row_mapping, out),
        (6, 0) => scan_sse2_fixed::<O, 6, 0>(codes, row_offsets, pf, sparse_row_mapping, out),
        (4, 1) => scan_sse2_fixed::<O, 4, 1>(codes, row_offsets, pf, sparse_row_mapping, out),
        (2, 2) => scan_sse2_fixed::<O, 2, 2>(codes, row_offsets, pf, sparse_row_mapping, out),
        (0, 3) => scan_sse2_fixed::<O, 0, 3>(codes, row_offsets, pf, sparse_row_mapping, out),
        (3, 2) => scan_sse2_fixed::<O, 3, 2>(codes, row_offsets, pf, sparse_row_mapping, out),
        (1, 3) => scan_sse2_fixed::<O, 1, 3>(codes, row_offsets, pf, sparse_row_mapping, out),
        (4, 2) => scan_sse2_fixed::<O, 4, 2>(codes, row_offsets, pf, sparse_row_mapping, out),
        _ => {
            if points >= 17 || ranges >= 9 || points + 2 * ranges >= 17 {
                scan_sse2_codes_table(codes, row_offsets, pf, sparse_row_mapping, out)
            } else {
                scan_sse2_generic(codes, row_offsets, pf, sparse_row_mapping, out)
            }
        },
    }
}

/// The kernel is for covers of this shape.
pub open spec fn sse2_fits(kernel: Sse2Kernel, points: int, ranges: int) -> bool {
    match kernel {
        Sse2Kernel::OnePoint => points == 1 && ranges == 0,
        Sse2Kernel::Fixed(shape) => shape.points == points && shape.ranges == ranges && sse2_fixed(
            points,
            ranges,
        ),
        Sse2Kernel::CodesTable => true,
        Sse2Kernel::Generic => true,
    }
}

/// Runs an SSE2 kernel that is for covers of this shape.
pub fn execute_sse2<O: Offset>(
    codes: &[Token],
    row_offsets: &[O],
    pf: &ProbeCover,
    sparse_row_mapping: bool,
    kernel: Sse2Kernel,
    out: &mut Vec<usize>,
)
    requires
        can_scan(codes@, row_offsets@, pf),
        sse2_fits(kernel, pf.point_list().len() as int, pf.range_list().len() as int),
    ensures
        scanned(old(out)@, final(out)@, codes@, row_offsets@, pf),
{
    match kernel {
        Sse2Kernel::OnePoint => scan_sse2_one_point(
            codes,
            row_offsets,
            pf,
            sparse_row_mapping,
            out,
        ),
        Sse2Kernel::Fixed(shape) => execute_sse2_fixed(
            codes,
            row_offsets,
            pf,
            sparse_row_mapping,
            shape,
            out,
        ),
        Sse2Kernel::CodesTable => scan_sse2_codes_table(
            codes,
            row_offsets,
            pf,
            sparse_row_mapping,
            out,
        ),
        Sse2Kernel::Generic => scan_sse2_generic(
            codes,
            row_offsets,
            pf,
            sparse_row_mapping,
            out,
        ),
    }
}

/// Runs the kernel of an exact shape.
fn execute_sse2_fixed<O: Offset>(
    codes: &[Token],
    row_offsets: &[O],
    pf: &ProbeCover,
    sparse_row_mapping: bool,
    shape: FixedShape,
    out: &mut Vec<usize>,
)
    requires
        can_scan(codes@, row_offsets@, pf),
        shape.points == pf.point_list().len(),
        shape.ranges == pf.range_list().len(),
        sse2_fixed(shape.points as int, shape.ranges as int),
    ensures
        scanned(old(out)@, final(out)@, codes@, row_offsets@, pf),
{
    match (shape.points, shape.ranges) {
        (0, 1) => scan_sse2_fixed::<O, 0, 1>(codes, row_offsets, pf, sparse_row_mapping, out),
        (2, 0) => scan_sse2_fixed::<O, 2, 0>(codes, row_offsets, pf, sparse_row_mapping, out),
        (3, 0) => scan_sse2_fixed::<O, 3, 0>(codes, row_offsets, pf, sparse_row_mapping, out),
        (1, 1) => scan_sse2_fixed::<O, 1, 1>(codes, row_offsets, pf, sparse_row_mapping, out),
        (4, 0) => scan_sse2_fixed::<O, 4, 0>(codes, row_offsets, pf, sparse_row_mapping, out),
        (2, 1) => scan_sse2_fixed::<O, 2, 1>(codes, row_offsets, pf, sparse_row_mapping, out),
        (5, 0) => scan_sse2_fixed::<O, 5, 0>(codes, row_offsets, pf, sparse_row_mapping, out),
        (0, 2) => scan_sse2_fixed::<O, 0, 2>(codes, row_offsets, pf, sparse_row_mapping, out),
        (1, 2) => scan_sse2_fixed::<O, 1, 2>(codes, row_offsets, pf, sparse_row_mapping, out),
        (3, 1) => scan_sse2_fixed::<O, 3, 1>(codes, row_offsets, pf, sparse_row_mapping, out),
        (6, 0) => scan_sse2_fixed::<O, 6, 0>(codes, row_offsets, pf, sparse_row_mapping, out),
        (4, 1) => scan_sse2_fixed::<O, 4, 1>(codes, row_offsets, pf, sparse_row_mapping, out),
        (2, 2) => scan_sse2_fixed::<O, 2, 2>(codes, row_offsets, pf, sparse_row_mapping, out),
        (0, 3) => scan_sse2_fixed::<O, 0, 3>(codes, row_offsets, pf, sparse_row_mapping, out),
        (3, 2) => scan_sse2_fixed::<O, 3, 2>(codes, row_offsets, pf, sparse_row_mapping, out),
        (1, 3) => scan_sse2_fixed::<O, 1, 3>(codes, row_offsets, pf, sparse_row_mapping, out),
        _ => scan_sse2_fixed::<O, 4, 2>(codes, row_offsets, pf, sparse_row_mapping, out),
    }
}

} // verus!
