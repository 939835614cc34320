//! The lane tests of the kernels, and the walk of the code stream in blocks.
//!
//! A kernel tests the lanes of a block alike; what differs between them is how
//! a lane is compared against a range, and how the hits of a block are handed
//! on.

use crate::bits::{bit, lemma_nonzero, lemma_set, lemma_zero};
use crate::rows::Offset;
use crate::search::prefilter::cover::{listed, ProbeCover};
use crate::search::prefilter::scan::sink::{can_scan, hits, scan_tail, scanned, RowSink};
use crate::types::{Token, TokenRange};
use vstd::prelude::*;

verus! {

/// A test of one lane.
pub trait Probe {
    /// The test is prepared.
    spec fn ready(&self) -> bool;

    /// The codes that the test takes.
    spec fn takes(&self, c: int) -> bool;

    /// The codes that it hits.
    spec fn matches(&self, c: int) -> bool;

    fn test(&self, code: Token) -> (r: bool)
        requires
            self.ready(),
            self.takes(code as int),
        ensures
            r == self.matches(code as int),
    ;
}

/// A test of one lane against a range of ids.
pub trait RangeTest: Sized {
    spec fn holds(&self, c: int) -> bool;

    fn hold(range: TokenRange) -> (r: Self)
        requires
            !range.nothing(),
        ensures
            forall|c: int| 0 <= c <= 0xFFFF ==> (#[trigger] r.holds(c) <==> range.has(c)),
    ;

    fn inside(&self, code: Token) -> (r: bool)
        ensures
            r == self.holds(code as int),
    ;
}

/// The 16-bit difference of two codes, wrapping round.
pub open spec fn wrapped(c: int, lo: int) -> int {
    if c >= lo {
        c - lo
    } else {
        c - lo + 0x1_0000
    }
}

/// Unsigned wrapping subtraction maps the range to `0..=span`; what lies
/// outside wraps or exceeds the span.
pub struct WrapRange {
    lo: Token,
    span: Token,
}

impl RangeTest for WrapRange {
    closed spec fn holds(&self, c: int) -> bool {
        wrapped(c, self.lo as int) <= self.span
    }

    fn hold(range: TokenRange) -> (r: WrapRange) {
        WrapRange { lo: range.begin, span: range.last - range.begin }
    }

    fn inside(&self, code: Token) -> (r: bool) {
        code.wrapping_sub(self.lo) <= self.span
    }
}

/// As [`WrapRange`], where the unsigned comparison is a saturating subtraction
/// that leaves nothing.
pub struct ExcessRange {
    lo: Token,
    span: Token,
}

impl RangeTest for ExcessRange {
    closed spec fn holds(&self, c: int) -> bool {
        wrapped(c, self.lo as int) <= self.span
    }

    fn hold(range: TokenRange) -> (r: ExcessRange) {
        ExcessRange { lo: range.begin, span: range.last - range.begin }
    }

    fn inside(&self, code: Token) -> (r: bool) {
        let excess: u16 = code.wrapping_sub(self.lo).saturating_sub(self.span);
        excess == 0
    }
}

/// As [`WrapRange`], where the unsigned comparison is a minimum that keeps the
/// difference.
pub struct MinRange {
    lo: Token,
    width: Token,
}

impl RangeTest for MinRange {
    closed spec fn holds(&self, c: int) -> bool {
        wrapped(c, self.lo as int) <= self.width
    }

    fn hold(range: TokenRange) -> (r: MinRange) {
        MinRange { lo: range.begin, width: range.last - range.begin }
    }

    fn inside(&self, code: Token) -> (r: bool) {
        let inside: u16 = code.wrapping_sub(self.lo);
        let least: u16 = if inside < self.width {
            inside
        } else {
            self.width
        };
        least == inside
    }
}

/// Flips the sign bit: the unsigned order of codes as a signed one.
pub fn biased(code: Token) -> (r: i16)
    ensures
        r == code - 0x8000,
{
    (code as i32 - 0x8000) as i16
}

/// Both ends are compared in the signed order of biased codes.
pub struct BiasedRange {
    lo: i16,
    hi: i16,
}

impl RangeTest for BiasedRange {
    closed spec fn holds(&self, c: int) -> bool {
        !(self.lo > c - 0x8000 || c - 0x8000 > self.hi)
    }

    fn hold(range: TokenRange) -> (r: BiasedRange) {
        BiasedRange { lo: biased(range.begin), hi: biased(range.last) }
    }

    fn inside(&self, code: Token) -> (r: bool) {
        let value: i16 = biased(code);
        let outside: bool = self.lo > value || value > self.hi;
        !outside
    }
}

/// The wrapped difference is compared against the span in the signed order of
/// biased codes.
pub struct BiasedSpan {
    lo: Token,
    span: i16,
}

impl RangeTest for BiasedSpan {
    closed spec fn holds(&self, c: int) -> bool {
        !(wrapped(c, self.lo as int) - 0x8000 > self.span)
    }

    fn hold(range: TokenRange) -> (r: BiasedSpan) {
        BiasedSpan { lo: range.begin, span: biased(range.last - range.begin) }
    }

    fn inside(&self, code: Token) -> (r: bool) {
        let outside: bool = biased(code.wrapping_sub(self.lo)) > self.span;
        !outside
    }
}

/// Both ends are compared in the unsigned order.
pub struct BoundRange {
    range: TokenRange,
}

impl RangeTest for BoundRange {
    closed spec fn holds(&self, c: int) -> bool {
        self.range.has(c)
    }

    fn hold(range: TokenRange) -> (r: BoundRange) {
        BoundRange { range }
    }

    fn inside(&self, code: Token) -> (r: bool) {
        code >= self.range.begin && code <= self.range.last
    }
}

/// One comparison per point, and one range test per range.
pub struct Compare<R> {
    points: Vec<Token>,
    ranges: Vec<R>,
}

impl<R: RangeTest> Compare<R> {
    /// Prepares the probes of a cover.
    pub fn new(cover: &ProbeCover) -> (r: Compare<R>)
        requires
            cover.proper(),
        ensures
            r.ready(),
            forall|c: int| 0 <= c <= 0xFFFF ==> #[trigger] r.takes(c),
            forall|c: int| 0 <= c <= 0xFFFF ==> (#[trigger] r.matches(c) <==> cover.has(c)),
    {
        let points: Vec<Token> = vstd::slice::slice_to_vec(cover.points());
        let list = cover.ranges();
        let ghost rs = cover.range_list();
        let mut ranges: Vec<R> = Vec::new();
        let mut i: usize = 0;
        while i < list.len()
            invariant
                list@ == rs,
                rs == cover.range_list(),
                cover.proper(),
                i <= rs.len(),
                ranges@.len() == i,
                forall|k: int, c: int|
                    0 <= k < i && 0 <= c <= 0xFFFF ==> (#[trigger] ranges@[k].holds(c)
                        <==> rs[k].has(c)),
            decreases rs.len() - i,
        {
            let range: TokenRange = list[i];
            assert(!rs[i as int].nothing());
            ranges.push(R::hold(range));
            i = i + 1;
        }
        let ghost ps = points@;
        let ghost held = ranges@;
        let r = Compare { points, ranges };
        proof {
            assert(ps == cover.point_list());
            assert forall|c: int| 0 <= c <= 0xFFFF implies (#[trigger] r.matches(c) <==> cover.has(
                c,
            )) by {
                assert(cover.has(c) == listed(ps, rs, c));
                assert(r.points@ == ps && r.ranges@ == held);
                let by_range = exists|k: int| 0 <= k < rs.len() && (#[trigger] rs[k]).has(c);
                let by_held = exists|k: int| 0 <= k < held.len() && (#[trigger] held[k]).holds(c);
                if by_range {
                    let k = choose|k: int| 0 <= k < rs.len() && (#[trigger] rs[k]).has(c);
                    assert(held[k].holds(c));
                    assert(by_held);
                }
                if by_held {
                    let k = choose|k: int| 0 <= k < held.len() && (#[trigger] held[k]).holds(c);
                    assert(held[k].holds(c));
                    assert(rs[k].has(c));
                    assert(by_range);
                }
                let by_point = exists|k: int| 0 <= k < ps.len() && #[trigger] ps[k] == c;
                assert(cover.has(c) == (by_point || by_range));
                assert(r.matches(c) == (by_point || by_held));
            }
        }
        r
    }
}

impl<R: RangeTest> Probe for Compare<R> {
    open spec fn ready(&self) -> bool {
        true
    }

    open spec fn takes(&self, c: int) -> bool {
        true
    }

    closed spec fn matches(&self, c: int) -> bool {
        ||| exists|i: int| 0 <= i < self.points@.len() && #[trigger] self.points@[i] == c
        ||| exists|i: int| 0 <= i < self.ranges@.len() && (#[trigger] self.ranges@[i]).holds(c)
    }

    fn test(&self, code: Token) -> (r: bool) {
        let mut hit: bool = false;
        let mut i: usize = 0;
        while i < self.points.len()
            invariant
                i <= self.points@.len(),
                hit == exists|k: int| 0 <= k < i && #[trigger] self.points@[k] == code,
            decreases self.points@.len() - i,
        {
            let equal: bool = self.points[i] == code;
            proof {
                if equal {
                    assert(self.points@[i as int] == code);
                }
            }
            hit = hit || equal;
            i = i + 1;
        }
        let ghost by_point = hit;
        let mut i: usize = 0;
        while i < self.ranges.len()
            invariant
                i <= self.ranges@.len(),
                hit == (by_point || exists|k: int|
                    0 <= k < i && (#[trigger] self.ranges@[k]).holds(code as int)),
            decreases self.ranges@.len() - i,
        {
            let inside: bool = self.ranges[i].inside(code);
            proof {
                if inside {
                    assert(self.ranges@[i as int].holds(code as int));
                }
            }
            hit = hit || inside;
            i = i + 1;
        }
        hit
    }
}

/// The positions of a stream are hits just where the probe matches.
pub open spec fn agrees<P: Probe>(probe: &P, cover: &ProbeCover, codes: Seq<Token>) -> bool {
    &&& probe.ready()
    &&& forall|i: int|
        0 <= i < codes.len() ==> probe.takes(#[trigger] codes[i] as int) && (probe.matches(
            codes[i] as int,
        ) <==> cover.has(codes[i] as int))
}

/// The hit lanes of a block, lane 0 lowest.
pub fn block_mask<P: Probe>(codes: &[Token], at: usize, width: usize, probe: &P) -> (mask: u64)
    requires
        probe.ready(),
        width <= 64,
        at + width <= codes@.len(),
        forall|i: int| 0 <= i < codes@.len() ==> probe.takes(#[trigger] codes@[i] as int),
    ensures
        forall|j: int|
            0 <= j < 64 ==> (#[trigger] bit(mask, j) <==> j < width && probe.matches(
                codes@[at + j] as int,
            )),
{
    let total: usize = codes.len();
    let mut mask: u64 = 0;
    let mut lane: usize = 0;
    proof {
        assert forall|j: int| 0 <= j < 64 implies !#[trigger] bit(0u64, j) by {
            lemma_zero(j);
        }
    }
    while lane < width
        invariant
            probe.ready(),
            lane <= width <= 64,
            at + width <= total,
            total == codes@.len(),
            forall|i: int| 0 <= i < codes@.len() ==> probe.takes(#[trigger] codes@[i] as int),
            forall|j: int|
                0 <= j < 64 ==> (#[trigger] bit(mask, j) <==> j < lane && probe.matches(
                    codes@[at + j] as int,
                )),
        decreases width - lane,
    {
        let code: Token = codes[at + lane];
        let hit: bool = probe.test(code);
        let ghost before = mask;
        if hit {
            mask = mask | (1u64 << (lane as u64));
        }
        proof {
            assert forall|j: int| 0 <= j < 64 implies (#[trigger] bit(mask, j) <==> j < lane + 1
                && probe.matches(codes@[at + j] as int)) by {
                if hit {
                    lemma_set(before, lane as int, j);
                }
                assert(bit(before, j) <==> j < lane && probe.matches(codes@[at + j] as int));
            }
        }
        lane = lane + 1;
    }
    mask
}

/// The lanes of a mask as stored words: all ones for a hit, else zero.
pub fn stored_lanes(mask: u64, width: usize) -> (lanes: Vec<u16>)
    requires
        width <= 64,
    ensures
        lanes@.len() == width,
        forall|j: int| 0 <= j < width ==> (#[trigger] lanes@[j] != 0 <==> bit(mask, j)),
{
    let mut lanes: Vec<u16> = Vec::new();
    let mut lane: usize = 0;
    while lane < width
        invariant
            lane <= width <= 64,
            lanes@.len() == lane,
            forall|j: int| 0 <= j < lane ==> (#[trigger] lanes@[j] != 0 <==> bit(mask, j)),
        decreases width - lane,
    {
        let hit: bool = (mask >> (lane as u64)) & 1 == 1;
        lanes.push(if hit {
            0xFFFF
        } else {
            0
        });
        lane = lane + 1;
    }
    lanes
}

/// How the hits of a block are handed on.
#[derive(Clone, Copy, Debug, Eq, PartialEq, Structural)]
pub enum HitMaterialization {
    /// The lanes are stored and read one by one.
    StoredLanes,
    /// The lanes are packed to one bit each.
    CompactMask,
}

/// Walks the stream from `from` on in blocks of `width` codes while a whole
/// block remains, and materializes only blocks with hits. Returns where the
/// rest begins.
pub fn walk_blocks<O: Offset, P: Probe>(
    codes: &[Token],
    from: usize,
    width: usize,
    materialize: HitMaterialization,
    probe: &P,
    sink: &mut RowSink<'_, O>,
    out: &mut Vec<usize>,
    Ghost(cover): Ghost<&ProbeCover>,
    Ghost(out0): Ghost<Seq<usize>>,
) -> (end: usize)
    requires
        agrees(probe, cover, codes@),
        1 <= width <= 64,
        from <= codes@.len(),
        old(sink).is_at(codes@.len() as int, hits(cover, codes@), from as int, out0, old(out)@),
    ensures
        from <= end <= codes@.len(),
        codes@.len() - end < width,
        final(sink).bounds() == old(sink).bounds(),
        final(sink).is_at(codes@.len() as int, hits(cover, codes@), end as int, out0, final(out)@),
{
    let ghost b = sink.bounds();
    let ghost p = hits(cover, codes@);
    let total: usize = codes.len();
    let mut at: usize = from;
    while total - at >= width
        invariant
            agrees(probe, cover, codes@),
            1 <= width <= 64,
            total == codes@.len(),
            from <= at <= total,
            p == hits(cover, codes@),
            sink.bounds() == b,
            old(sink).bounds() == b,
            sink.is_at(total as int, p, at as int, out0, out@),
        decreases total - at,
    {
        let mask: u64 = block_mask(codes, at, width, probe);
        proof {
            assert forall|j: int| 0 <= j < 64 implies (#[trigger] bit(mask, j) <==> j < width && p(
                at + j,
            )) by {
                if j < width {
                    assert(probe.takes(codes@[at + j] as int));
                }
            }
            lemma_nonzero(mask);
        }
        if mask != 0 {
            match materialize {
                HitMaterialization::CompactMask => {
                    sink.mark_mask(
                        at,
                        mask,
                        out,
                        Ghost(width as int),
                        Ghost(total as int),
                        Ghost(p),
                        Ghost(out0),
                    );
                },
                HitMaterialization::StoredLanes => {
                    let lanes = stored_lanes(mask, width);
                    sink.mark_block(at, &lanes, out, Ghost(total as int), Ghost(p), Ghost(out0));
                },
            }
        } else {
            proof {
                assert forall|i: int| at <= i < at + width implies !#[trigger] p(i) by {
                    assert(!bit(mask, i - at));
                    assert(bit(mask, i - at) <==> i - at < width && p(at + (i - at)));
                }
                sink.lemma_skip(total as int, p, at as int, at + width, out0, out@);
            }
        }
        at = at + width;
    }
    at
}

/// A scan in blocks of `width` codes, and of what remains.
pub fn scan_blocks<O: Offset, P: Probe>(
    codes: &[Token],
    row_offsets: &[O],
    cover: &ProbeCover,
    sparse_row_mapping: bool,
    width: usize,
    materialize: HitMaterialization,
    probe: &P,
    out: &mut Vec<usize>,
)
    requires
        can_scan(codes@, row_offsets@, cover),
        agrees(probe, cover, codes@),
        1 <= width <= 64,
    ensures
        scanned(old(out)@, final(out)@, codes@, row_offsets@, cover),
{
    let ghost out0 = out@;
    let n: usize = codes.len();
    let mut sink = RowSink::new(
        row_offsets,
        sparse_row_mapping,
        Ghost(n as int),
        Ghost(hits(cover, codes@)),
        Ghost(out0),
    );
    let at: usize = walk_blocks(
        codes,
        0,
        width,
        materialize,
        probe,
        &mut sink,
        out,
        Ghost(cover),
        Ghost(out0),
    );
    scan_tail(codes, cover, at, &mut sink, out, Ghost(out0));
}

/// As [`scan_blocks`], in wide blocks first and then in narrow ones.
pub fn scan_blocks_twice<O: Offset, P: Probe>(
    codes: &[Token],
    row_offsets: &[O],
    cover: &ProbeCover,
    sparse_row_mapping: bool,
    wide: usize,
    narrow: usize,
    materialize: HitMaterialization,
    probe: &P,
    out: &mut Vec<usize>,
)
    requires
        can_scan(codes@, row_offsets@, cover),
        agrees(probe, cover, codes@),
        1 <= wide <= 64,
        1 <= narrow <= 64,
    ensures
        scanned(old(out)@, final(out)@, codes@, row_offsets@, cover),
{
    let ghost out0 = out@;
    let n: usize = codes.len();
    let mut sink = RowSink::new(
        row_offsets,
        sparse_row_mapping,
        Ghost(n as int),
        Ghost(hits(cover, codes@)),
        Ghost(out0),
    );
    let at: usize = walk_blocks(
        codes,
        0,
        wide,
        materialize,
        probe,
        &mut sink,
        out,
        Ghost(cover),
        Ghost(out0),
    );
    let at: usize = walk_blocks(
        codes,
        at,
        narrow,
        materialize,
        probe,
        &mut sink,
        out,
        Ghost(cover),
        Ghost(out0),
    );
    scan_tail(codes, cover, at, &mut sink, out, Ghost(out0));
}

} // verus!
