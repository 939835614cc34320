//! AVX-512 kernels: thirty-two lanes per vector, with native unsigned
//! comparisons and mask output.

use crate::bits::{bit, lemma_nonzero, lemma_or_zero, lemma_zero};
use crate::rows::Offset;
use crate::search::prefilter::cover::ProbeCover;
use crate::search::prefilter::scan::policy::FixedShape;
use crate::search::prefilter::scan::probe::{
    agrees, block_mask, scan_blocks, walk_blocks, BoundRange, Compare, HitMaterialization, Probe,
    WrapRange,
};
use crate::search::prefilter::scan::sink::{can_scan, hits, scan_tail, scanned, RowSink};
use crate::types::Token;
use vstd::prelude::*;

verus! {

/// Codes whose masks are computed before any is read.
pub const SUPERBLOCK: usize = 512;

/// The hit lanes of the superblock at `base`, a word of mask for every 64
/// codes.
fn superblock_masks<P: Probe>(codes: &[Token], base: usize, probe: &P) -> (masks: Vec<u64>)
    requires
        probe.ready(),
        base + SUPERBLOCK <= codes@.len(),
        forall|i: int| 0 <= i < codes@.len() ==> probe.takes(#[trigger] codes@[i] as int),
    ensures
        masks@.len() == 8,
        forall|k: int, j: int|
            0 <= k < 8 && 0 <= j < 64 ==> (#[trigger] bit(masks@[k], j) <==> probe.matches(
                codes@[base + 64 * k + j] as int,
            )),
{
    let total: usize = codes.len();
    let mut masks: Vec<u64> = Vec::new();
    let mut block: usize = 0;
    while block < 8
        invariant
            probe.ready(),
            total == codes@.len(),
            base + SUPERBLOCK <= total,
            forall|i: int| 0 <= i < codes@.len() ==> probe.takes(#[trigger] codes@[i] as int),
            block <= 8,
            masks@.len() == block,
            forall|k: int, j: int|
                0 <= k < block && 0 <= j < 64 ==> (#[trigger] bit(masks@[k], j) <==> probe.matches(
                    codes@[base + 64 * k + j] as int,
                )),
        decreases 8 - block,
    {
        let mask: u64 = block_mask(codes, base + 64 * block, 64, probe);
        masks.push(mask);
        block = block + 1;
    }
    masks
}

/// Hands the masks of the superblock at `base` to the sink.
fn consume_masks<O: Offset>(
    base: usize,
    masks: &Vec<u64>,
    sink: &mut RowSink<'_, O>,
    out: &mut Vec<usize>,
    Ghost(n): Ghost<int>,
    Ghost(p): Ghost<spec_fn(int) -> bool>,
    Ghost(out0): Ghost<Seq<usize>>,
)
    requires
        masks@.len() == 8,
        base + SUPERBLOCK <= n <= usize::MAX,
        old(sink).is_at(n, p, base as int, out0, old(out)@),
        forall|k: int, j: int|
            0 <= k < 8 && 0 <= j < 64 ==> (#[trigger] bit(masks@[k], j) <==> p(base + 64 * k + j)),
    ensures
        final(sink).bounds() == old(sink).bounds(),
        final(sink).is_at(n, p, base + SUPERBLOCK, out0, final(out)@),
{
    let ghost b = sink.bounds();
    let mut block: usize = 0;
    while block < 8
        invariant
            masks@.len() == 8,
            base + SUPERBLOCK <= n <= usize::MAX,
            block <= 8,
            sink.bounds() == b,
            old(sink).bounds() == b,
            sink.is_at(n, p, base + 64 * block, out0, out@),
            forall|k: int, j: int|
                0 <= k < 8 && 0 <= j < 64 ==> (#[trigger] bit(masks@[k], j) <==> p(
                    base + 64 * k + j,
                )),
        decreases 8 - block,
    {
        let mask: u64 = masks[block];
        let at: usize = base + block * 64;
        proof {
            assert forall|j: int| 0 <= j < 64 implies (#[trigger] bit(mask, j) <==> j < 64 && p(
                at + j,
            )) by {
                assert(bit(masks@[block as int], j) <==> p(base + 64 * block + j));
                assert(at + j == base + 64 * block + j);
            }
            lemma_nonzero(mask);
        }
        if mask != 0 {
            sink.mark_mask(at, mask, out, Ghost(64), Ghost(n), Ghost(p), Ghost(out0));
        } else {
            proof {
                assert forall|i: int| at <= i < at + 64 implies !#[trigger] p(i) by {
                    assert(!bit(mask, i - at));
                    assert(p(at + (i - at)) == bit(mask, i - at));
                }
                sink.lemma_skip(n, p, at as int, at + 64, out0, out@);
            }
        }
        block = block + 1;
    }
}

/// Whole superblocks first, then single vectors, then what remains.
fn scan_masks<O: Offset, P: Probe>(
    codes: &[Token],
    row_offsets: &[O],
    cover: &ProbeCover,
    sparse_row_mapping: bool,
    probe: &P,
    out: &mut Vec<usize>,
)
    requires
        can_scan(codes@, row_offsets@, cover),
        agrees(probe, cover, codes@),
    ensures
        scanned(old(out)@, final(out)@, codes@, row_offsets@, cover),
{
    let ghost out0 = out@;
    let ghost p = hits(cover, codes@);
    let n: usize = codes.len();
    let mut sink = RowSink::new(
        row_offsets,
        sparse_row_mapping,
        Ghost(n as int),
        Ghost(p),
        Ghost(out0),
    );
    let ghost b = sink.bounds();
    let mut base: usize = 0;
    while n - base >= SUPERBLOCK
        invariant
            agrees(probe, cover, codes@),
            n == codes@.len(),
            base <= n,
            p == hits(cover, codes@),
            sink.bounds() == b,
            sink.is_at(n as int, p, base as int, out0, out@),
        decreases n - base,
    {
        let masks = superblock_masks(codes, base, probe);
        proof {
            assert forall|k: int, j: int| 0 <= k < 8 && 0 <= j < 64 implies (#[trigger] bit(
                masks@[k],
                j,
            ) <==> p(base + 64 * k + j)) by {
                assert(bit(masks@[k], j) <==> probe.matches(codes@[base + 64 * k + j] as int));
                assert(probe.takes(codes@[base + 64 * k + j] as int));
            }
        }
        let mut any: u64 = 0;
        let mut block: usize = 0;
        while block < 8
            invariant
                masks@.len() == 8,
                block <= 8,
                any == 0 ==> forall|k: int| 0 <= k < block ==> #[trigger] masks@[k] == 0,
            decreases 8 - block,
        {
            let ghost before = any;
            let mask: u64 = masks[block];
            any = any | mask;
            proof {
                if any == 0 {
                    lemma_or_zero(before, mask);
                }
            }
            block = block + 1;
        }
        if any != 0 {
            consume_masks(
                base,
                &masks,
                &mut sink,
                out,
                Ghost(n as int),
                Ghost(p),
                Ghost(out0),
            );
        } else {
            proof {
                assert forall|i: int| base <= i < base + SUPERBLOCK implies !#[trigger] p(i) by {
                    let k = (i - base) / 64;
                    let j = (i - base) % 64;
                    assert(masks@[k] == 0);
                    lemma_zero(j);
                    assert(i == base + 64 * k + j);
                    assert(bit(masks@[k], j) <==> p(base + 64 * k + j));
                }
                sink.lemma_skip(n as int, p, base as int, base + SUPERBLOCK, out0, out@);
            }
        }
        base = base + SUPERBLOCK;
    }
    let at: usize = walk_blocks(
        codes,
        base,
        32,
        HitMaterialization::CompactMask,
        probe,
        &mut sink,
        out,
        Ghost(cover),
        Ghost(out0),
    );
    scan_tail(codes, cover, at, &mut sink, out, Ghost(out0));
}

/// Arbitrary covers, one vector at a time.
pub fn scan_avx512<O: Offset>(
    codes: &[Token],
    row_offsets: &[O],
    pf: &ProbeCover,
    sparse_row_mapping: bool,
    out: &mut Vec<usize>,
)
    requires
        can_scan(codes@, row_offsets@, pf),
    ensures
        scanned(old(out)@, final(out)@, codes@, row_offsets@, pf),
{
    let probe = Compare::<BoundRange>::new(pf);
    scan_blocks(
        codes,
        row_offsets,
        pf,
        sparse_row_mapping,
        32,
        HitMaterialization::CompactMask,
        &probe,
        out,
    );
}

/// Covers of an exact shape, superblocks first.
pub fn scan_avx512_fixed<O: Offset, const POINTS: usize, const RANGES: usize>(
    codes: &[Token],
    row_offsets: &[O],
    cover: &ProbeCover,
    sparse_row_mapping: bool,
    out: &mut Vec<usize>,
)
    requires
        can_scan(codes@, row_offsets@, cover),
        cover.point_list().len() == POINTS,
        cover.range_list().len() == RANGES,
    ensures
        scanned(old(out)@, final(out)@, codes@, row_offsets@, cover),
{
    let probe = Compare::<WrapRange>::new(cover);
    scan_masks(codes, row_offsets, cover, sparse_row_mapping, &probe, out);
}

/// The shapes with a fixed AVX-512 kernel.
pub open spec fn avx512_fixed(points: int, ranges: int) -> bool {
    (ranges == 0 && 1 <= points <= 3) || (ranges == 1 && 0 <= points <= 2)
}

/// Runs the kernel of an exact shape, or the one for arbitrary covers.
pub fn execute_avx512<O: Offset>(
    codes: &[Token],
    row_offsets: &[O],
    pf: &ProbeCover,
    sparse_row_mapping: bool,
    shape: Option<FixedShape>,
    out: &mut Vec<usize>,
)
    requires
        can_scan(codes@, row_offsets@, pf),
        shape matches Some(s) ==> s.points == pf.point_list().len() && s.ranges
            == pf.range_list().len() && avx512_fixed(s.points as int, s.ranges as int),
    ensures
        scanned(old(out)@, final(out)@, codes@, row_offsets@, pf),
{
    match shape {
        Some(s) => match (s.points, s.ranges) {
            (1, 0) => scan_avx512_fixed::<O, 1, 0>(codes, row_offsets, pf, sparse_row_mapping, out),
            (2, 0) => scan_avx512_fixed::<O, 2, 0>(codes, row_offsets, pf, sparse_row_mapping, out),
            (3, 0) => scan_avx512_fixed::<O, 3, 0>(codes, row_offsets, pf, sparse_row_mapping, out),
            (0, 1) => scan_avx512_fixed::<O, 0, 1>(codes, row_offsets, pf, sparse_row_mapping, out),
            (1, 1) => scan_avx512_fixed::<O, 1, 1>(codes, row_offsets, pf, sparse_row_mapping, out),
            _ => scan_avx512_fixed::<O, 2, 1>(codes, row_offsets, pf, sparse_row_mapping, out),
        },
        None => scan_avx512(codes, row_offsets, pf, sparse_row_mapping, out),
    }
}

} // verus!
