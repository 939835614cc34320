//! Candidate-row materialization shared by the stream-centric kernels.

use crate::bits::{bit, lemma_and, lemma_high_ones, lemma_lowest};
use crate::rows::{
    bound_at, bounds, delimits, first_above, lemma_bound_in, lemma_selected_agree,
    lemma_selected_skip, row_count, rows_ok, selected_rows, Offset,
};
use crate::search::prefilter::cover::ProbeCover;
use crate::types::Token;
use vstd::prelude::*;

verus! {

/// The rows that hold a position where `p` holds.
pub open spec fn rows_with(b: Seq<int>, p: spec_fn(int) -> bool) -> spec_fn(int) -> bool {
    |r: int| has_hit(b, p, r)
}

/// Row `r` holds a position where `p` holds.
pub open spec fn has_hit(b: Seq<int>, p: spec_fn(int) -> bool, r: int) -> bool {
    exists|i: int| b[r] <= i < b[r + 1] && #[trigger] p(i)
}

/// The positions below `at` where `p` holds.
pub open spec fn upto(p: spec_fn(int) -> bool, at: int) -> spec_fn(int) -> bool {
    |i: int| p(i) && i < at
}

/// The positions whose code the cover holds.
pub open spec fn hits(cover: &ProbeCover, codes: Seq<Token>) -> spec_fn(int) -> bool {
    |i: int| 0 <= i < codes.len() && cover.has(codes[i] as int)
}

/// A stream, its rows and a cover that can be scanned for.
pub open spec fn can_scan<O: Offset>(codes: Seq<Token>, row_offsets: Seq<O>, cover: &ProbeCover) -> bool {
    &&& cover.wf()
    &&& cover.proper()
    &&& delimits(bounds(row_offsets), codes.len() as int)
}

/// The rows that hold a covered code were appended.
pub open spec fn scanned<O: Offset>(
    before: Seq<usize>,
    after: Seq<usize>,
    codes: Seq<Token>,
    row_offsets: Seq<O>,
    cover: &ProbeCover,
) -> bool {
    after == before + selected_rows(
        row_count(bounds(row_offsets)),
        rows_with(bounds(row_offsets), hits(cover, codes)),
    )
}

/// A large gap in code space is searched rather than walked.
pub const BINARY_SEARCH_CODE_GAP: usize = 128;

/// Turns increasing code indices into ascending row ids, each once.
///
/// Code indices are visited in increasing order, so the owning row only moves
/// forward and a row is finished the moment the scan leaves it. Candidates can
/// therefore be appended as they are discovered.
pub struct RowSink<'a, O> {
    row_offsets: &'a [O],
    /// Row owning the most recent hit.
    row: usize,
    /// End of `row`, or zero before the first hit. A hit below this belongs to
    /// a row that has already been appended.
    row_end: usize,
    binary_search_sparse_gaps: bool,
}

impl<'a, O: Offset> RowSink<'a, O> {
    /// The row bounds.
    pub closed spec fn bounds(&self) -> Seq<int> {
        bounds(self.row_offsets@)
    }

    /// The rows hit below `at` are those that were added to `out0`.
    pub closed spec fn is_at(
        &self,
        n: int,
        p: spec_fn(int) -> bool,
        at: int,
        out0: Seq<usize>,
        out: Seq<usize>,
    ) -> bool {
        let b = self.bounds();
        &&& delimits(b, n)
        &&& n <= usize::MAX
        &&& 0 <= at <= n
        &&& out == out0 + selected_rows(row_count(b), rows_with(b, upto(p, at)))
        &&& if self.row_end == 0 {
            self.row == 0 && forall|i: int| 0 <= i < at ==> !#[trigger] p(i)
        } else {
            &&& self.row + 1 < b.len()
            &&& self.row_end == b[self.row + 1]
            &&& forall|i: int| self.row_end <= i < at ==> !#[trigger] p(i)
            &&& exists|i: int| b[self.row as int] <= i < at && i < self.row_end && #[trigger] p(i)
        }
    }

    pub fn new(
        row_offsets: &'a [O],
        binary_search_sparse_gaps: bool,
        Ghost(n): Ghost<int>,
        Ghost(p): Ghost<spec_fn(int) -> bool>,
        Ghost(out): Ghost<Seq<usize>>,
    ) -> (r: RowSink<'a, O>)
        requires
            delimits(bounds(row_offsets@), n),
            0 <= n <= usize::MAX,
        ensures
            r.bounds() == bounds(row_offsets@),
            r.is_at(n, p, 0, out, out),
    {
        let r = RowSink { row_offsets, row: 0, row_end: 0, binary_search_sparse_gaps };
        proof {
            let b = bounds(row_offsets@);
            let q = rows_with(b, upto(p, 0));
            assert forall|x: int| 0 <= x < row_count(b) implies !#[trigger] q(x) by {
                if q(x) {
                    let i = choose|i: int| b[x] <= i < b[x + 1] && #[trigger] upto(p, 0)(i);
                    lemma_bound_in(b, n, x);
                }
            }
            lemma_selected_skip(0, row_count(b), q);
            assert(out + selected_rows(row_count(b), q) =~= out);
        }
        r
    }

    /// Positions without a hit add no row.
    pub proof fn lemma_skip(
        &self,
        n: int,
        p: spec_fn(int) -> bool,
        at: int,
        to: int,
        out0: Seq<usize>,
        out: Seq<usize>,
    )
        requires
            self.is_at(n, p, at, out0, out),
            at <= to <= n,
            forall|i: int| at <= i < to ==> !#[trigger] p(i),
        ensures
            self.is_at(n, p, to, out0, out),
    {
        let b = self.bounds();
        let q = rows_with(b, upto(p, at));
        let s = rows_with(b, upto(p, to));
        assert forall|x: int| 0 <= x < row_count(b) implies #[trigger] q(x) == s(x) by {
            if q(x) {
                let i = choose|i: int| b[x] <= i < b[x + 1] && #[trigger] upto(p, at)(i);
                assert(upto(p, to)(i));
            }
            if s(x) {
                let i = choose|i: int| b[x] <= i < b[x + 1] && #[trigger] upto(p, to)(i);
                assert(p(i));
                assert(upto(p, at)(i));
            }
        }
        lemma_selected_agree(row_count(b), q, s);
        if self.row_end > 0 {
            let i = choose|i: int|
                b[self.row as int] <= i < at && i < self.row_end && #[trigger] p(i);
            assert(b[self.row as int] <= i < to && p(i));
        }
    }

    /// Further positions of a row that was appended add no row.
    proof fn lemma_same_row(
        &self,
        n: int,
        p: spec_fn(int) -> bool,
        at: int,
        to: int,
        out0: Seq<usize>,
        out: Seq<usize>,
    )
        requires
            self.is_at(n, p, at, out0, out),
            at <= to <= self.row_end,
        ensures
            self.is_at(n, p, to, out0, out),
    {
        let b = self.bounds();
        let q = rows_with(b, upto(p, at));
        let s = rows_with(b, upto(p, to));
        let row = self.row as int;
        if self.row_end > 0 {
            lemma_bound_in(b, n, row + 1);
            let h = choose|i: int|
                b[row] <= i < at && i < self.row_end && #[trigger] p(i);
            assert forall|x: int| 0 <= x < row_count(b) implies #[trigger] q(x) == s(x) by {
                if q(x) {
                    let i = choose|i: int| b[x] <= i < b[x + 1] && #[trigger] upto(p, at)(i);
                    assert(upto(p, to)(i));
                }
                if s(x) {
                    let i = choose|i: int| b[x] <= i < b[x + 1] && #[trigger] upto(p, to)(i);
                    assert(p(i));
                    if i < at {
                        assert(upto(p, at)(i));
                    } else {
                        lemma_one_row(b, n, i, x, row);
                        assert(upto(p, at)(h));
                    }
                }
            }
            lemma_selected_agree(row_count(b), q, s);
            assert(b[row] <= h < to && p(h));
        }
    }

    /// Records a hit at `code_index`, appending its row unless already
    /// appended.
    pub fn hit(
        &mut self,
        code_index: usize,
        out: &mut Vec<usize>,
        Ghost(n): Ghost<int>,
        Ghost(p): Ghost<spec_fn(int) -> bool>,
        Ghost(out0): Ghost<Seq<usize>>,
    )
        requires
            old(self).is_at(n, p, code_index as int, out0, old(out)@),
            code_index < n,
            p(code_index as int),
        ensures
            final(self).bounds() == old(self).bounds(),
            final(self).is_at(n, p, code_index + 1, out0, final(out)@),
            final(self).ends_past(code_index as int),
    {
        let ghost b = self.bounds();
        let ghost c = code_index as int;
        if code_index < self.row_end {
            proof {
                self.lemma_same_row(n, p, c, c + 1, out0, out@);
            }
            return;
        }
        let len: usize = self.row_offsets.len();
        proof {
            // There is a row after the last one that was appended.
            if len < 2 {
                assert(n == 0);
            }
            lemma_bound_in(b, n, self.row as int);
            if self.row_end > 0 {
                assert(b[self.row as int] <= b[self.row + 1]);
            }
        }
        let mut row: usize = self.row;
        let gap: usize = code_index - self.row_end;
        if self.binary_search_sparse_gaps && gap >= BINARY_SEARCH_CODE_GAP {
            row = first_above(self.row_offsets, self.row + 1, len, code_index, Ghost(n)) - 1;
            proof {
                if row > self.row {
                    assert(b[row as int] <= c);
                }
                if row + 1 == len {
                    assert(b[len - 1] == n);
                }
                assert(b[row + 1] > c);
            }
        } else {
            // Empty rows end at or before the index, so this skips them too.
            assert(b[len - 1] == n);
            while bound_at(self.row_offsets, row + 1) <= code_index
                invariant
                    b == bounds(self.row_offsets@),
                    b == self.bounds(),
                    delimits(b, n),
                    n <= usize::MAX,
                    len == b.len(),
                    len >= 2,
                    b[len - 1] == n,
                    code_index < n,
                    self.row <= row,
                    row + 1 < len,
                    b[row as int] <= code_index,
                    b[row + 1] <= usize::MAX,
                decreases len - row,
            {
                row = row + 1;
                proof {
                    if row + 1 >= len {
                        assert(b[row as int] == n);
                    }
                    lemma_bound_in(b, n, row + 1);
                }
            }
        }
        proof {
            lemma_bound_in(b, n, row + 1);
            self.lemma_new_row(n, p, c, row as int, out0, out@);
        }
        out.push(row);
        self.row = row;
        self.row_end = bound_at(self.row_offsets, row + 1);
        proof {
            assert(out0 + selected_rows(row_count(b), rows_with(b, upto(p, c))).push(row)
                =~= (out0 + selected_rows(row_count(b), rows_with(b, upto(p, c)))).push(row));
            assert(b[row as int] <= c < c + 1 && c < self.row_end && p(c));
        }
    }

    /// The row of the last hit ends after position `i`.
    pub closed spec fn ends_past(&self, i: int) -> bool {
        self.row_end > i
    }

    proof fn lemma_new_row(
        &self,
        n: int,
        p: spec_fn(int) -> bool,
        c: int,
        r: int,
        out0: Seq<usize>,
        out: Seq<usize>,
    )
        requires
            self.is_at(n, p, c, out0, out),
            self.row_end <= c < n,
            p(c),
            self.row <= r,
            r + 1 < self.bounds().len(),
            self.bounds()[r] <= c < self.bounds()[r + 1],
        ensures
            selected_rows(
                row_count(self.bounds()),
                rows_with(self.bounds(), upto(p, c + 1)),
            ) == selected_rows(
                row_count(self.bounds()),
                rows_with(self.bounds(), upto(p, c)),
            ).push(r as usize),
    {
        let b = self.bounds();
        let m = row_count(b);
        let q = rows_with(b, upto(p, c));
        let s = rows_with(b, upto(p, c + 1));
        assert(s(r)) by {
            assert(upto(p, c + 1)(c));
        }
        assert forall|x: int| r < x < m implies !#[trigger] s(x) by {
            if s(x) {
                let i = choose|i: int| b[x] <= i < b[x + 1] && #[trigger] upto(p, c + 1)(i);
                if x > r + 1 {
                    assert(b[r + 1] <= b[x]);
                }
            }
        }
        assert forall|x: int| r <= x < m implies !#[trigger] q(x) by {
            if q(x) {
                let i = choose|i: int| b[x] <= i < b[x + 1] && #[trigger] upto(p, c)(i);
                assert(p(i));
                if self.row_end > 0 {
                    if r == self.row {
                        assert(b[r + 1] > c);
                    } else {
                        if self.row + 1 < x {
                            assert(b[self.row + 1] <= b[x]);
                        }
                    }
                } else {
                    lemma_bound_in(b, n, x);
                }
            }
        }
        assert forall|x: int| 0 <= x < r implies #[trigger] q(x) == s(x) by {
            if q(x) {
                let i = choose|i: int| b[x] <= i < b[x + 1] && #[trigger] upto(p, c)(i);
                assert(upto(p, c + 1)(i));
            }
            if s(x) {
                let i = choose|i: int| b[x] <= i < b[x + 1] && #[trigger] upto(p, c + 1)(i);
                if x + 1 < r {
                    assert(b[x + 1] <= b[r]);
                }
                assert(upto(p, c)(i));
            }
        }
        lemma_selected_skip(r as nat, m, q);
        lemma_selected_skip((r + 1) as nat, m, s);
        lemma_selected_agree(r as nat, q, s);
        assert(selected_rows((r + 1) as nat, s) == selected_rows(r as nat, s).push(r as usize));
    }

    /// Records the hits that a lane mask names, lane 0 standing for `base`.
    pub fn mark_mask(
        &mut self,
        base: usize,
        mask: u64,
        out: &mut Vec<usize>,
        Ghost(width): Ghost<int>,
        Ghost(n): Ghost<int>,
        Ghost(p): Ghost<spec_fn(int) -> bool>,
        Ghost(out0): Ghost<Seq<usize>>,
    )
        requires
            old(self).is_at(n, p, base as int, out0, old(out)@),
            0 <= width <= 64,
            base + width <= n,
            forall|j: int|
                0 <= j < 64 ==> (#[trigger] bit(mask, j) <==> j < width && p(base + j)),
        ensures
            final(self).bounds() == old(self).bounds(),
            final(self).is_at(n, p, base + width, out0, final(out)@),
    {
        let ghost b = self.bounds();
        let mut lanes: u64 = mask;
        let ghost mut lo0: int = 0;
        let ghost mut lo: int = 0;
        loop
            invariant
                self.bounds() == b,
                old(self).bounds() == b,
                self.is_at(n, p, base + lo, out0, out@),
                n <= usize::MAX,
                0 <= lo0 <= lo <= width <= 64,
                base + width <= n,
                lo0 == lo || self.row_end >= base + lo,
                forall|j: int|
                    0 <= j < 64 ==> (#[trigger] bit(mask, j) <==> j < width && p(base + j)),
                forall|j: int|
                    0 <= j < 64 ==> (#[trigger] bit(lanes, j) <==> bit(mask, j) && j >= lo0),
            decreases width - lo,
        {
            // A previous hit may have emitted a row extending into this block.
            let consumed: usize = if self.row_end > base {
                self.row_end - base
            } else {
                0
            };
            if consumed >= 64 {
                proof {
                    self.lemma_same_row(n, p, base + lo, base + width, out0, out@);
                }
                return;
            }
            let keep: u64 = !0u64 << (consumed as u64);
            let ghost was = lanes;
            lanes = lanes & keep;
            proof {
                let next = if consumed > width {
                    width
                } else if consumed > lo {
                    consumed as int
                } else {
                    lo
                };
                if next > lo {
                    self.lemma_same_row(n, p, base + lo, base + next, out0, out@);
                }
                assert forall|j: int| 0 <= j < 64 implies (#[trigger] bit(lanes, j) <==> bit(
                    mask,
                    j,
                ) && j >= next) by {
                    lemma_and(was, keep, j);
                    lemma_high_ones(consumed as int, j);
                    assert(bit(was, j) <==> bit(mask, j) && j >= lo0);
                    assert(bit(mask, j) <==> j < width && p(base + j));
                }
                lo = next;
                lo0 = next;
                lemma_lowest(lanes);
            }
            if lanes == 0 {
                proof {
                    assert forall|i: int| base + lo <= i < base + width implies !#[trigger] p(
                        i,
                    ) by {
                        assert(!bit(lanes, i - base));
                        assert(bit(mask, i - base) <==> i - base < width && p(base + (i - base)));
                    }
                    self.lemma_skip(n, p, base + lo, base + width, out0, out@);
                }
                return;
            }
            let tz: usize = lanes.trailing_zeros() as usize;
            proof {
                assert(bit(lanes, tz as int));
                assert(bit(mask, tz as int));
                assert forall|i: int| base + lo <= i < base + tz implies !#[trigger] p(i) by {
                    assert(!bit(lanes, i - base));
                    assert(bit(mask, i - base) <==> i - base < width && p(base + (i - base)));
                }
                self.lemma_skip(n, p, base + lo, base + tz, out0, out@);
            }
            self.hit(base + tz, out, Ghost(n), Ghost(p), Ghost(out0));
            proof {
                lo = tz + 1;
            }
        }
    }

    /// Records the hits of a block from its stored lanes, one by one.
    pub fn mark_block(
        &mut self,
        base: usize,
        lanes: &Vec<u16>,
        out: &mut Vec<usize>,
        Ghost(n): Ghost<int>,
        Ghost(p): Ghost<spec_fn(int) -> bool>,
        Ghost(out0): Ghost<Seq<usize>>,
    )
        requires
            old(self).is_at(n, p, base as int, out0, old(out)@),
            base + lanes@.len() <= n <= usize::MAX,
            forall|j: int|
                0 <= j < lanes@.len() ==> (#[trigger] lanes@[j] != 0 <==> p(base + j)),
        ensures
            final(self).bounds() == old(self).bounds(),
            final(self).is_at(n, p, base + lanes@.len(), out0, final(out)@),
    {
        let ghost b = self.bounds();
        let mut lane: usize = 0;
        while lane < lanes.len()
            invariant
                self.bounds() == b,
                old(self).bounds() == b,
                lane <= lanes@.len(),
                base + lanes@.len() <= n <= usize::MAX,
                self.is_at(n, p, base + lane, out0, out@),
                forall|j: int|
                    0 <= j < lanes@.len() ==> (#[trigger] lanes@[j] != 0 <==> p(base + j)),
            decreases lanes@.len() - lane,
        {
            if lanes[lane] != 0 {
                self.hit(base + lane, out, Ghost(n), Ghost(p), Ghost(out0));
            } else {
                proof {
                    self.lemma_skip(n, p, base + lane, base + lane + 1, out0, out@);
                }
            }
            lane = lane + 1;
        }
    }

    /// Everything was visited: the rows that hold a hit were appended.
    pub proof fn lemma_done(
        &self,
        n: int,
        p: spec_fn(int) -> bool,
        out0: Seq<usize>,
        out: Seq<usize>,
    )
        requires
            self.is_at(n, p, n, out0, out),
        ensures
            out == out0 + selected_rows(row_count(self.bounds()), rows_with(self.bounds(), p)),
    {
        let b = self.bounds();
        let q = rows_with(b, upto(p, n));
        let s = rows_with(b, p);
        assert forall|x: int| 0 <= x < row_count(b) implies #[trigger] q(x) == s(x) by {
            if q(x) {
                let i = choose|i: int| b[x] <= i < b[x + 1] && #[trigger] upto(p, n)(i);
                assert(p(i));
            }
            if s(x) {
                let i = choose|i: int| b[x] <= i < b[x + 1] && #[trigger] p(i);
                lemma_bound_in(b, n, x + 1);
                assert(upto(p, n)(i));
            }
        }
        lemma_selected_agree(row_count(b), q, s);
    }
}

/// A position lies in one row alone.
pub proof fn lemma_one_row(b: Seq<int>, n: int, i: int, r: int, s: int)
    requires
        rows_ok(b, n),
        0 <= r < b.len() - 1,
        0 <= s < b.len() - 1,
        b[r] <= i < b[r + 1],
        b[s] <= i < b[s + 1],
    ensures
        r == s,
{
    if r < s {
        if r + 1 < s {
            assert(b[r + 1] <= b[s]);
        }
    } else if s < r {
        if s + 1 < r {
            assert(b[s + 1] <= b[r]);
        }
    }
}

/// Scans the final partial block.
pub fn scan_tail<O: Offset>(
    codes: &[Token],
    cover: &ProbeCover,
    from: usize,
    sink: &mut RowSink<'_, O>,
    out: &mut Vec<usize>,
    Ghost(out0): Ghost<Seq<usize>>,
)
    requires
        cover.wf(),
        from <= codes@.len(),
        old(sink).is_at(codes@.len() as int, hits(cover, codes@), from as int, out0, old(out)@),
    ensures
        final(out)@ == out0 + selected_rows(
            row_count(old(sink).bounds()),
            rows_with(old(sink).bounds(), hits(cover, codes@)),
        ),
{
    let ghost b = sink.bounds();
    let ghost p = hits(cover, codes@);
    let n: usize = codes.len();
    let mut at: usize = from;
    while at < n
        invariant
            cover.wf(),
            n == codes@.len(),
            at <= n,
            p == hits(cover, codes@),
            sink.bounds() == b,
            old(sink).bounds() == b,
            sink.is_at(n as int, p, at as int, out0, out@),
        decreases n - at,
    {
        if cover.contains(codes[at]) {
            assert(p(at as int));
            sink.hit(at, out, Ghost(n as int), Ghost(p), Ghost(out0));
        } else {
            proof {
                assert(!p(at as int));
                sink.lemma_skip(n as int, p, at as int, at + 1, out0, out@);
            }
        }
        at = at + 1;
    }
    proof {
        sink.lemma_done(n as int, p, out0, out@);
    }
}

/// A scan keeps what was listed, and appends in ascending order, each once, the
/// rows that hold a code which is a point of the cover or between the ends of
/// one of its ranges, wherever in the row.
pub proof fn lemma_scan_means<O: Offset>(
    before: Seq<usize>,
    after: Seq<usize>,
    codes: Seq<Token>,
    row_offsets: Seq<O>,
    cover: &ProbeCover,
    r: usize,
)
    requires
        scanned(before, after, codes, row_offsets, cover),
        row_offsets.len() <= usize::MAX,
    ensures
        before.len() <= after.len(),
        after.take(before.len() as int) =~= before,
        forall|i: int, j: int|
            before.len() <= i < j < after.len() ==> #[trigger] after[i] < #[trigger] after[j],
        after.skip(before.len() as int).contains(r) <==> r + 1 < row_offsets.len() && exists|i: int|
            row_offsets[r as int].value() <= i < row_offsets[r + 1].value() && 0 <= i < codes.len()
                && cover.has(#[trigger] codes[i] as int),
{
    let b = bounds(row_offsets);
    let p = hits(cover, codes);
    let q = rows_with(b, p);
    let rows = row_count(b);
    let found = selected_rows(rows, q);
    crate::rows::lemma_selected_rows_member(rows, q);
    assert(after.skip(before.len() as int) =~= found);
    assert forall|i: int, j: int| before.len() <= i < j < after.len() implies #[trigger] after[i]
        < #[trigger] after[j] by {
        assert(after[i] == found[i - before.len()]);
        assert(after[j] == found[j - before.len()]);
    }
    assert(found.contains(r) <==> r < rows && q(r as int));
    if r < rows {
        if q(r as int) {
            let i = choose|i: int| b[r as int] <= i < b[r + 1] && #[trigger] p(i);
            assert(cover.has(codes[i] as int));
        }
        if exists|i: int|
            row_offsets[r as int].value() <= i < row_offsets[r + 1].value() && 0 <= i < codes.len()
                && cover.has(#[trigger] codes[i] as int) {
            let i = choose|i: int|
                row_offsets[r as int].value() <= i < row_offsets[r + 1].value() && 0 <= i
                    < codes.len() && cover.has(#[trigger] codes[i] as int);
            assert(p(i));
        }
    }
}

} // verus!
