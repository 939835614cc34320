//! AVX2 kernels: sixteen lanes per vector, where the unsigned order of codes
//! is a signed one once the sign bit is flipped.

use crate::rows::Offset;
use crate::search::prefilter::cover::ProbeCover;
use crate::search::prefilter::scan::nibble::{lemma_points_only, OneBank, TwoBanks};
use crate::search::prefilter::scan::policy::{
    avx2_fixed, cost_of_shape, Avx2Kernel, FixedShape, SMALL_TABLE_LEN,
};
use crate::search::prefilter::scan::probe::{
    scan_blocks, BiasedRange, BiasedSpan, Compare, HitMaterialization, Probe,
};
use crate::search::prefilter::scan::sink::{can_scan, scanned};
use crate::search::prefilter::scan::table::{pack_membership, pack_membership_dense, Packed};
use crate::types::Token;
use vstd::prelude::*;

verus! {

/// Every code is an id that the cover's table has an entry for.
pub open spec fn in_table(codes: Seq<Token>, cover: &ProbeCover) -> bool {
    forall|i: int| 0 <= i < codes.len() ==> #[trigger] codes[i] < cover.members().len()
}

/// Nibble tables for up to eight points, in blocks of four vectors.
fn scan_avx2_nibble_points_impl<O: Offset, const NIBBLES: usize>(
    codes: &[Token],
    row_offsets: &[O],
    pf: &ProbeCover,
    sparse_row_mapping: bool,
    out: &mut Vec<usize>,
)
    requires
        can_scan(codes@, row_offsets@, pf),
        in_table(codes@, pf),
        NIBBLES == 3 || NIBBLES == 4,
        NIBBLES == 3 ==> pf.members().len() <= SMALL_TABLE_LEN,
        1 <= pf.point_list().len() <= 8,
        pf.range_list().len() == 0,
    ensures
        scanned(old(out)@, final(out)@, codes@, row_offsets@, pf),
{
    proof {
        let ps = pf.point_list();
        assert forall|i: int| NIBBLES == 3 && 0 <= i < ps.len() implies #[trigger] ps[i] < 4096 by {
            assert(pf.has(ps[i] as int));
        }
    }
    let probe = OneBank::<NIBBLES>::new(pf.points());
    proof {
        assert forall|i: int| 0 <= i < codes@.len() implies probe.takes(#[trigger] codes@[i] as int)
            && (probe.matches(codes@[i] as int) <==> pf.has(codes@[i] as int)) by {
            lemma_points_only(pf, codes@[i] as int);
            assert(codes@[i] < pf.members().len());
        }
    }
    scan_blocks(
        codes,
        row_offsets,
        pf,
        sparse_row_mapping,
        64,
        HitMaterialization::CompactMask,
        &probe,
        out,
    );
}

/// Nibble tables for nine to sixteen points, in two banks.
fn scan_avx2_nibble_points_two_banks_impl<O: Offset, const NIBBLES: usize>(
    codes: &[Token],
    row_offsets: &[O],
    pf: &ProbeCover,
    sparse_row_mapping: bool,
    out: &mut Vec<usize>,
)
    requires
        can_scan(codes@, row_offsets@, pf),
        in_table(codes@, pf),
        NIBBLES == 3 || NIBBLES == 4,
        NIBBLES == 3 ==> pf.members().len() <= SMALL_TABLE_LEN,
        9 <= pf.point_list().len() <= 16,
        pf.range_list().len() == 0,
    ensures
        scanned(old(out)@, final(out)@, codes@, row_offsets@, pf),
{
    proof {
        let ps = pf.point_list();
        assert forall|i: int| NIBBLES == 3 && 0 <= i < ps.len() implies #[trigger] ps[i] < 4096 by {
            assert(pf.has(ps[i] as int));
        }
    }
    let probe = TwoBanks::<NIBBLES>::new(pf.points());
    proof {
        assert forall|i: int| 0 <= i < codes@.len() implies probe.takes(#[trigger] codes@[i] as int)
            && (probe.matches(codes@[i] as int) <==> pf.has(codes@[i] as int)) by {
            lemma_points_only(pf, codes@[i] as int);
            assert(codes@[i] < pf.members().len());
        }
    }
    scan_blocks(
        codes,
        row_offsets,
        pf,
        sparse_row_mapping,
        64,
        HitMaterialization::CompactMask,
        &probe,
        out,
    );
}

/// Membership by nibble tables for up to sixteen points: one bank of eight, or
/// two whose results are united. Three nibbles decide where the table is small.
pub fn scan_avx2_nibble_points<O: Offset>(
    codes: &[Token],
    row_offsets: &[O],
    pf: &ProbeCover,
    sparse_row_mapping: bool,
    out: &mut Vec<usize>,
)
    requires
        can_scan(codes@, row_offsets@, pf),
        in_table(codes@, pf),
        1 <= pf.point_list().len() <= 16,
        pf.range_list().len() == 0,
    ensures
        scanned(old(out)@, final(out)@, codes@, row_offsets@, pf),
{
    let small: bool = pf.table_len() <= SMALL_TABLE_LEN;
    if pf.points().len() <= 8 {
        if small {
            scan_avx2_nibble_points_impl::<O, 3>(codes, row_offsets, pf, sparse_row_mapping, out);
        } else {
            scan_avx2_nibble_points_impl::<O, 4>(codes, row_offsets, pf, sparse_row_mapping, out);
        }
    } else if small {
        scan_avx2_nibble_points_two_banks_impl::<O, 3>(
            codes,
            row_offsets,
            pf,
            sparse_row_mapping,
            out,
        );
    } else {
        scan_avx2_nibble_points_two_banks_impl::<O, 4>(
            codes,
            row_offsets,
            pf,
            sparse_row_mapping,
            out,
        );
    }
}

/// A single point, in blocks of four vectors.
pub fn scan_avx2_one_point<O: Offset>(
    codes: &[Token],
    row_offsets: &[O],
    pf: &ProbeCover,
    sparse_row_mapping: bool,
    hits: HitMaterialization,
    out: &mut Vec<usize>,
)
    requires
        can_scan(codes@, row_offsets@, pf),
        pf.point_list().len() == 1,
        pf.range_list().len() == 0,
    ensures
        scanned(old(out)@, final(out)@, codes@, row_offsets@, pf),
{
    let probe = Compare::<BiasedRange>::new(pf);
    scan_blocks(codes, row_offsets, pf, sparse_row_mapping, 64, hits, &probe, out);
}

/// A single range, in blocks of four vectors.
pub fn scan_avx2_one_range<O: Offset>(
    codes: &[Token],
    row_offsets: &[O],
    pf: &ProbeCover,
    sparse_row_mapping: bool,
    out: &mut Vec<usize>,
)
    requires
        can_scan(codes@, row_offsets@, pf),
        pf.point_list().len() == 0,
        pf.range_list().len() == 1,
    ensures
        scanned(old(out)@, final(out)@, codes@, row_offsets@, pf),
{
    let probe = Compare::<BiasedRange>::new(pf);
    scan_blocks(codes, row_offsets, pf, sparse_row_mapping, 64, HitMaterialization::CompactMask, &probe, out);
}

/// Covers of an exact shape, in blocks of four vectors.
pub fn scan_avx2_fixed<O: Offset, const POINTS: usize, const RANGES: usize>(
    codes: &[Token],
    row_offsets: &[O],
    pf: &ProbeCover,
    sparse_row_mapping: bool,
    out: &mut Vec<usize>,
)
    requires
        can_scan(codes@, row_offsets@, pf),
        pf.point_list().len() == POINTS,
        pf.range_list().len() == RANGES,
    ensures
        scanned(old(out)@, final(out)@, codes@, row_offsets@, pf),
{
    let probe = Compare::<BiasedSpan>::new(pf);
    scan_blocks(codes, row_offsets, pf, sparse_row_mapping, 64, HitMaterialization::CompactMask, &probe, out);
}

/// Codes looked up in a table of one bit per id.
pub fn scan_avx2_gather<O: Offset>(
    codes: &[Token],
    row_offsets: &[O],
    pf: &ProbeCover,
    sparse_row_mapping: bool,
    out: &mut Vec<usize>,
)
    requires
        can_scan(codes@, row_offsets@, pf),
        in_table(codes@, pf),
    ensures
        scanned(old(out)@, final(out)@, codes@, row_offsets@, pf),
{
    let points: usize = pf.points().len();
    let ranges: usize = pf.ranges().len();
    let wide: bool = points > 128 || ranges > 64 || points + 2 * ranges > 128;
    let table: Vec<u32> = if pf.table_len() <= SMALL_TABLE_LEN && wide {
        pack_membership_dense(pf)
    } else {
        pack_membership(pf)
    };
    let probe = Packed::new(table, Ghost(pf));
    proof {
        assert forall|i: int| 0 <= i < codes@.len() implies probe.takes(#[trigger] codes@[i] as int)
            && (probe.matches(codes@[i] as int) <==> pf.has(codes@[i] as int)) by {
            assert(codes@[i] < pf.members().len());
        }
    }
    scan_blocks(
        codes,
        row_offsets,
        pf,
        sparse_row_mapping,
        32,
        HitMaterialization::CompactMask,
        &probe,
        out,
    );
}

/// Covers of at most sixteen comparisons, in blocks of two vectors.
pub fn scan_avx2_few<O: Offset>(
    codes: &[Token],
    row_offsets: &[O],
    pf: &ProbeCover,
    sparse_row_mapping: bool,
    hits: HitMaterialization,
    out: &mut Vec<usize>,
)
    requires
        can_scan(codes@, row_offsets@, pf),
        cost_of_shape(pf.point_list().len() as int, pf.range_list().len() as int) <= 16,
    ensures
        scanned(old(out)@, final(out)@, codes@, row_offsets@, pf),
{
    let probe = Compare::<BiasedRange>::new(pf);
    scan_blocks(codes, row_offsets, pf, sparse_row_mapping, 32, hits, &probe, out);
}

/// Arbitrary covers, one vector at a time.
pub fn scan_avx2<O: Offset>(
    codes: &[Token],
    row_offsets: &[O],
    pf: &ProbeCover,
    sparse_row_mapping: bool,
    out: &mut Vec<usize>,
)
    requires
        can_scan(codes@, row_offsets@, pf),
    ensures
        scanned(old(out)@, final(out)@, codes@, row_offsets@, pf),
{
    let probe = Compare::<BiasedRange>::new(pf);
    scan_blocks(codes, row_offsets, pf, sparse_row_mapping, 16, HitMaterialization::StoredLanes, &probe, out);
}

/// Arbitrary covers, in blocks of four vectors.
pub fn scan_avx2_generic<O: Offset>(
    codes: &[Token],
    row_offsets: &[O],
    pf: &ProbeCover,
    sparse_row_mapping: bool,
    out: &mut Vec<usize>,
)
    requires
        can_scan(codes@, row_offsets@, pf),
    ensures
        scanned(old(out)@, final(out)@, codes@, row_offsets@, pf),
{
    let probe = Compare::<BiasedRange>::new(pf);
    scan_blocks(codes, row_offsets, pf, sparse_row_mapping, 64, HitMaterialization::CompactMask, &probe, out);
}

/// The kernel is for covers of this shape.
pub open spec fn avx2_fits(kernel: Avx2Kernel, points: int, ranges: int) -> bool {
    match kernel {
        Avx2Kernel::OnePoint { .. } => points == 1 && ranges == 0,
        Avx2Kernel::OneRange => points == 0 && ranges == 1,
        Avx2Kernel::Fixed(shape) => shape.points == points && shape.ranges == ranges && avx2_fixed(
            points,
            ranges,
        ),
        Avx2Kernel::NibblePoints => 1 <= points <= 16 && ranges == 0,
        Avx2Kernel::Few { .. } => cost_of_shape(points, ranges) <= 16,
        Avx2Kernel::Gather => true,
    }
}

/// Runs an AVX2 kernel that is for covers of this shape.
pub fn execute_avx2<O: Offset>(
    codes: &[Token],
    row_offsets: &[O],
    pf: &ProbeCover,
    sparse_row_mapping: bool,
    kernel: Avx2Kernel,
    out: &mut Vec<usize>,
)
    requires
        can_scan(codes@, row_offsets@, pf),
        in_table(codes@, pf),
        avx2_fits(kernel, pf.point_list().len() as int, pf.range_list().len() as int),
    ensures
        scanned(old(out)@, final(out)@, codes@, row_offsets@, pf),
{
    match kernel {
        Avx2Kernel::OnePoint { hits } => scan_avx2_one_point(
            codes,
            row_offsets,
            pf,
            sparse_row_mapping,
            hits,
            out,
        ),
        Avx2Kernel::OneRange => scan_avx2_one_range(
            codes,
            row_offsets,
            pf,
            sparse_row_mapping,
            out,
        ),
        Avx2Kernel::Fixed(shape) => execute_avx2_fixed(
            codes,
            row_offsets,
            pf,
            sparse_row_mapping,
            shape,
            out,
        ),
        Avx2Kernel::NibblePoints => scan_avx2_nibble_points(
            codes,
            row_offsets,
            pf,
            sparse_row_mapping,
            out,
        ),
        Avx2Kernel::Few { hits } => scan_avx2_few(
            codes,
            row_offsets,
            pf,
            sparse_row_mapping,
            hits,
            out,
        ),
        Avx2Kernel::Gather => scan_avx2_gather(codes, row_offsets, pf, sparse_row_mapping, out),
    }
}

/// Runs the kernel of an exact shape.
fn execute_avx2_fixed<O: Offset>(
    codes: &[Token],
    row_offsets: &[O],
    pf: &ProbeCover,
    sparse_row_mapping: bool,
    shape: FixedShape,
    out: &mut Vec<usize>,
)
    requires
        can_scan(codes@, row_offsets@, pf),
        shape.points == pf.point_list().len(),
        shape.ranges == pf.range_list().len(),
        avx2_fixed(shape.points as int, shape.ranges as int),
    ensures
        scanned(old(out)@, final(out)@, codes@, row_offsets@, pf),
{
    match (shape.points, shape.ranges) {
        (2, 0) => scan_avx2_fixed::<O, 2, 0>(codes, row_offsets, pf, sparse_row_mapping, out),
        (3, 0) => scan_avx2_fixed::<O, 3, 0>(codes, row_offsets, pf, sparse_row_mapping, out),
        (1, 1) => scan_avx2_fixed::<O, 1, 1>(codes, row_offsets, pf, sparse_row_mapping, out),
        (2, 1) => scan_avx2_fixed::<O, 2, 1>(codes, row_offsets, pf, sparse_row_mapping, out),
        (1, 2) => scan_avx2_fixed::<O, 1, 2>(codes, row_offsets, pf, sparse_row_mapping, out),
        (4, 0) => scan_avx2_fixed::<O, 4, 0>(codes, row_offsets, pf, sparse_row_mapping, out),
        (5, 0) => scan_avx2_fixed::<O, 5, 0>(codes, row_offsets, pf, sparse_row_mapping, out),
        (6, 0) => scan_avx2_fixed::<O, 6, 0>(codes, row_offsets, pf, sparse_row_mapping, out),
        (0, 2) => scan_avx2_fixed::<O, 0, 2>(codes, row_offsets, pf, sparse_row_mapping, out),
        (3, 1) => scan_avx2_fixed::<O, 3, 1>(codes, row_offsets, pf, sparse_row_mapping, out),
        (4, 1) => scan_avx2_fixed::<O, 4, 1>(codes, row_offsets, pf, sparse_row_mapping, out),
        (3, 2) => scan_avx2_fixed::<O, 3, 2>(codes, row_offsets, pf, sparse_row_mapping, out),
        (2, 2) => scan_avx2_fixed::<O, 2, 2>(codes, row_offsets, pf, sparse_row_mapping, out),
        (0, 3) => scan_avx2_fixed::<O, 0, 3>(codes, row_offsets, pf, sparse_row_mapping, out),
        (1, 3) => scan_avx2_fixed::<O, 1, 3>(codes, row_offsets, pf, sparse_row_mapping, out),
        (2, 3) => scan_avx2_fixed::<O, 2, 3>(codes, row_offsets, pf, sparse_row_mapping, out),
        (5, 1) => scan_avx2_fixed::<O, 5, 1>(codes, row_offsets, pf, sparse_row_mapping, out),
        (4, 2) => scan_avx2_fixed::<O, 4, 2>(codes, row_offsets, pf, sparse_row_mapping, out),
        (6, 1) => scan_avx2_fixed::<O, 6, 1>(codes, row_offsets, pf, sparse_row_mapping, out),
        (3, 3) => scan_avx2_fixed::<O, 3, 3>(codes, row_offsets, pf, sparse_row_mapping, out),
        (5, 2) => scan_avx2_fixed::<O, 5, 2>(codes, row_offsets, pf, sparse_row_mapping, out),
        (7, 1) => scan_avx2_fixed::<O, 7, 1>(codes, row_offsets, pf, sparse_row_mapping, out),
        (6, 2) => scan_avx2_fixed::<O, 6, 2>(codes, row_offsets, pf, sparse_row_mapping, out),
        _ => scan_avx2_fixed::<O, 8, 1>(codes, row_offsets, pf, sparse_row_mapping, out),
    }
}

} // verus!
