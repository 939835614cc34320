//! Stage one of the split scan: a block of codes to a bit mask.

use crate::bits::{bit, lemma_nonzero, mask_bit};
use crate::search::prefilter::cover::ProbeCover;
use crate::search::prefilter::scan::nibble::NibblePoints;
use crate::search::prefilter::scan::probe::{
    block_mask, Compare, MinRange, Probe, RangeTest, WrapRange,
};
use crate::types::Token;
use vstd::prelude::*;

verus! {

/// Codes per block, and 64 of them to a word of mask.
pub const BLOCK: usize = 4096;

/// Words of mask per block.
pub const WORDS: usize = 64;

/// A test of every code of a block at once.
pub trait Matcher: Sized {
    /// The codes that it hits.
    spec fn admits(&self, c: int) -> bool;

    spec fn ready(&self) -> bool;

    fn new(cover: &ProbeCover) -> (r: Self)
        requires
            cover.wf(),
            cover.proper(),
        ensures
            r.ready(),
            forall|c: int| 0 <= c <= 0xFFFF ==> (#[trigger] r.admits(c) <==> cover.has(c)),
    ;

    /// Sets the bit of each code that is hit, and tells whether one is.
    fn check(&self, codes: &[Token], bits: &mut Vec<u64>) -> (any: bool)
        requires
            self.ready(),
            codes@.len() == BLOCK,
            old(bits)@.len() == WORDS,
        ensures
            final(bits)@.len() == WORDS,
            forall|i: int|
                0 <= i < BLOCK ==> (#[trigger] mask_bit(final(bits)@, i) <==> self.admits(
                    codes@[i] as int,
                )),
            any <==> exists|i: int| 0 <= i < BLOCK && #[trigger] mask_bit(final(bits)@, i),
    ;
}

/// Fills a block's mask word by word.
fn words<P: Probe>(probe: &P, codes: &[Token], bits: &mut Vec<u64>) -> (any: bool)
    requires
        probe.ready(),
        forall|c: int| 0 <= c <= 0xFFFF ==> #[trigger] probe.takes(c),
        codes@.len() == BLOCK,
        old(bits)@.len() == WORDS,
    ensures
        final(bits)@.len() == WORDS,
        forall|i: int|
            0 <= i < BLOCK ==> (#[trigger] mask_bit(final(bits)@, i) <==> probe.matches(
                codes@[i] as int,
            )),
        any <==> exists|i: int| 0 <= i < BLOCK && #[trigger] mask_bit(final(bits)@, i),
{
    let mut any: bool = false;
    let mut w: usize = 0;
    while w < WORDS
        invariant
            probe.ready(),
            forall|c: int| 0 <= c <= 0xFFFF ==> #[trigger] probe.takes(c),
            codes@.len() == BLOCK,
            bits@.len() == WORDS,
            w <= WORDS,
            forall|i: int|
                0 <= i < 64 * w ==> (#[trigger] mask_bit(bits@, i) <==> probe.matches(
                    codes@[i] as int,
                )),
            any <==> exists|i: int| 0 <= i < 64 * w && #[trigger] mask_bit(bits@, i),
        decreases WORDS - w,
    {
        let word: u64 = block_mask(codes, 64 * w, 64, probe);
        let ghost before = bits@;
        let ghost was = any;
        bits.set(w, word);
        any = any || word != 0;
        proof {
            assert forall|i: int| 0 <= i < 64 * (w + 1) implies (#[trigger] mask_bit(bits@, i)
                <==> probe.matches(codes@[i] as int)) by {
                if i < 64 * w {
                    assert(mask_bit(before, i) <==> probe.matches(codes@[i] as int));
                    assert(i / 64 < w);
                } else {
                    assert(i / 64 == w);
                    assert(bit(word, i % 64) <==> probe.matches(codes@[64 * w + i % 64] as int));
                }
            }
            lemma_nonzero(word);
            if was {
                let i = choose|i: int| 0 <= i < 64 * w && #[trigger] mask_bit(before, i);
                assert(i / 64 < w);
                assert(mask_bit(bits@, i));
            }
            if word != 0 {
                let j = choose|j: int| 0 <= j < 64 && #[trigger] bit(word, j);
                assert((64 * w + j) / 64 == w && (64 * w + j) % 64 == j);
                assert(mask_bit(bits@, 64 * w + j));
            }
            if exists|i: int| 0 <= i < 64 * (w + 1) && #[trigger] mask_bit(bits@, i) {
                let i = choose|i: int| 0 <= i < 64 * (w + 1) && #[trigger] mask_bit(bits@, i);
                if i < 64 * w {
                    assert(i / 64 < w);
                    assert(mask_bit(before, i));
                } else {
                    assert(i / 64 == w);
                    assert(bit(word, i % 64));
                }
            }
        }
        w = w + 1;
    }
    any
}

/// One table entry per code, one load per code: any points, any ranges.
pub struct Table {
    admits: Vec<bool>,
}

impl Probe for Table {
    closed spec fn ready(&self) -> bool {
        self.admits@.len() == 65536
    }

    open spec fn takes(&self, c: int) -> bool {
        true
    }

    closed spec fn matches(&self, c: int) -> bool {
        self.admits@[c]
    }

    fn test(&self, code: Token) -> (r: bool) {
        self.admits[code as usize]
    }
}

impl Matcher for Table {
    closed spec fn admits(&self, c: int) -> bool {
        self.matches(c)
    }

    closed spec fn ready(&self) -> bool {
        Probe::ready(self)
    }

    fn new(cover: &ProbeCover) -> (r: Table) {
        let mut admits: Vec<bool> = Vec::new();
        let mut id: usize = 0;
        while id < 65536
            invariant
                cover.wf(),
                id <= 65536,
                admits@.len() == id,
                forall|c: int| 0 <= c < id ==> (#[trigger] admits@[c] <==> cover.has(c)),
            decreases 65536 - id,
        {
            admits.push(cover.contains(id as Token));
            id = id + 1;
        }
        Table { admits }
    }

    fn check(&self, codes: &[Token], bits: &mut Vec<u64>) -> (any: bool) {
        words(self, codes, bits)
    }
}

/// One comparison per point and one range test per range, combined with OR.
pub struct EqOr {
    probes: Compare<WrapRange>,
}

impl Matcher for EqOr {
    closed spec fn admits(&self, c: int) -> bool {
        self.probes.matches(c)
    }

    closed spec fn ready(&self) -> bool {
        self.probes.ready()
    }

    fn new(cover: &ProbeCover) -> (r: EqOr) {
        EqOr { probes: Compare::<WrapRange>::new(cover) }
    }

    fn check(&self, codes: &[Token], bits: &mut Vec<u64>) -> (any: bool) {
        words(&self.probes, codes, bits)
    }
}

/// Range tests alone: `min(code - begin, width) == code - begin`.
pub struct Range {
    probes: Compare<MinRange>,
}

impl Matcher for Range {
    closed spec fn admits(&self, c: int) -> bool {
        self.probes.matches(c)
    }

    closed spec fn ready(&self) -> bool {
        self.probes.ready()
    }

    fn new(cover: &ProbeCover) -> (r: Range) {
        Range { probes: Compare::<MinRange>::new(cover) }
    }

    fn check(&self, codes: &[Token], bits: &mut Vec<u64>) -> (any: bool) {
        words(&self.probes, codes, bits)
    }
}

/// Nibble tables for the points, eight to a batch, and the ranges beside them.
pub struct NibbleN8 {
    points: NibblePoints,
    ranges: Compare<WrapRange>,
}

impl Probe for NibbleN8 {
    closed spec fn ready(&self) -> bool {
        &&& self.points.ready()
        &&& forall|c: int| 0 <= c <= 0xFFFF ==> #[trigger] self.points.takes(c)
        &&& self.ranges.ready()
    }

    open spec fn takes(&self, c: int) -> bool {
        true
    }

    closed spec fn matches(&self, c: int) -> bool {
        self.points.matches(c) || self.ranges.matches(c)
    }

    fn test(&self, code: Token) -> (r: bool) {
        assert(self.points.takes(code as int));
        let point: bool = self.points.test(code);
        let range: bool = self.ranges.test(code);
        point || range
    }
}

impl Matcher for NibbleN8 {
    closed spec fn admits(&self, c: int) -> bool {
        self.matches(c)
    }

    closed spec fn ready(&self) -> bool {
        Probe::ready(self)
    }

    fn new(cover: &ProbeCover) -> (r: NibbleN8) {
        let points = NibblePoints::new(cover.points(), false);
        let alone = ProbeCover::new(Vec::new(), vstd::slice::slice_to_vec(cover.ranges()));
        let ranges = Compare::<WrapRange>::new(&alone);
        let r = NibbleN8 { points, ranges };
        proof {
            assert forall|c: int| 0 <= c <= 0xFFFF implies (#[trigger] r.admits(c) <==> cover.has(
                c,
            )) by {
                let ps = cover.point_list();
                assert(points.matches(c) <==> ps.contains(c as Token));
                assert(ranges.matches(c) <==> alone.has(c));
                if ps.contains(c as Token) {
                    let i = choose|i: int| 0 <= i < ps.len() && ps[i] == c as Token;
                    assert(ps[i] == c);
                }
                if exists|i: int| 0 <= i < ps.len() && #[trigger] ps[i] == c {
                    let i = choose|i: int| 0 <= i < ps.len() && #[trigger] ps[i] == c;
                    assert(ps[i] == c as Token);
                }
            }
        }
        r
    }

    fn check(&self, codes: &[Token], bits: &mut Vec<u64>) -> (any: bool) {
        words(self, codes, bits)
    }
}

} // verus!
