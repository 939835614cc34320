//! Stage two of the split scan: a bit mask to rows, each verified.

use crate::bits::{bit, lemma_clear_lowest, lemma_lowest, mask_bit};
use crate::dictionary::{codes_ok, DictView};
use crate::rows::{
    bound_at, bounds, gallop, lemma_bound_in, lemma_selected_agree, lemma_selected_skip, row_codes,
    row_count, rows_ok, selected_rows, Offset,
};
use crate::search::prefilter::layout::passes;
use crate::search::prefilter::scan::sink::{has_hit, lemma_one_row, rows_with, upto};
use crate::search::prefilter::walk::Walk;
use crate::types::Token;
use vstd::prelude::*;

verus! {

/// Position `i` lies in a row.
pub open spec fn in_rows(b: Seq<int>, i: int) -> bool {
    b.len() >= 2 && b[0] <= i < b[b.len() - 1]
}

/// Rows follow each other, and every position where `p` holds is one of a
/// stream of `n` codes and lies in a row. The stream may go on past the last
/// row, and the last row past the stream.
pub open spec fn hits_in_rows(b: Seq<int>, n: int, p: spec_fn(int) -> bool) -> bool {
    &&& rows_ok(b, usize::MAX as int)
    &&& forall|i: int| #[trigger] p(i) ==> 0 <= i < n && in_rows(b, i)
}

/// How the row of a hit is found from a row at or before it.
pub trait Seek {
    fn seek<O: Offset>(offsets: &[O], from: usize, code: usize) -> (r: usize)
        requires
            rows_ok(bounds(offsets@), usize::MAX as int),
            from + 1 < offsets@.len(),
            bounds(offsets@)[from as int] <= code < bounds(offsets@)[offsets@.len() - 1],
        ensures
            from <= r,
            r + 1 < offsets@.len(),
            bounds(offsets@)[r as int] <= code < bounds(offsets@)[r + 1],
    ;
}

/// The row is walked to, one step per row.
pub struct LinearSeek {}

impl Seek for LinearSeek {
    fn seek<O: Offset>(offsets: &[O], from: usize, code: usize) -> (r: usize) {
        let ghost b = bounds(offsets@);
        let len: usize = offsets.len();
        let mut row: usize = from;
        proof {
            lemma_bound_in(b, usize::MAX as int, row + 1);
        }
        while bound_at(offsets, row + 1) <= code
            invariant
                b == bounds(offsets@),
                rows_ok(b, usize::MAX as int),
                len == b.len(),
                code < b[len - 1],
                from <= row,
                row + 1 < len,
                b[row as int] <= code,
                b[row + 1] <= usize::MAX,
            decreases len - row,
        {
            row = row + 1;
            proof {
                lemma_bound_in(b, usize::MAX as int, row + 1);
            }
        }
        row
    }
}

/// The row is galloped to: the step doubles until the offsets overshoot, and
/// that bracket is searched.
pub struct GallopSeek {}

impl Seek for GallopSeek {
    fn seek<O: Offset>(offsets: &[O], from: usize, code: usize) -> (r: usize) {
        gallop(offsets, from, code, Ghost(usize::MAX as int))
    }
}

/// What stage two asks of a hit before its row goes out.
pub enum Check<'a> {
    /// Nothing: every hit's row is a candidate.
    Superset,
    /// The alignment walk over the codes.
    Walk { walk: &'a Walk, dict: DictView<'a>, codes: &'a [Token] },
}

impl<'a> Check<'a> {
    /// The check can be made of hits in these rows.
    pub open spec fn ready(&self, b: Seq<int>, n: int) -> bool {
        match self {
            Check::Superset => true,
            Check::Walk { walk, dict, codes } => {
                &&& walk.wf()
                &&& dict.wf()
                &&& dict.tokens() == walk.model().tokens
                &&& codes_ok(codes@, dict.tokens().len())
                &&& codes@.len() == n
                &&& rows_ok(b, n)
            },
        }
    }

    /// The hit at position `i` of row `r` passes.
    pub open spec fn lets(&self, b: Seq<int>, r: int, i: int) -> bool {
        match self {
            Check::Superset => true,
            Check::Walk { walk, dict, codes } => passes(
                walk.model().edges,
                walk.model().ids,
                walk.model().tokens,
                walk.model().needle,
                row_codes(codes@, b, r),
                i - b[r],
            ),
        }
    }

    /// The hits that pass in their row.
    pub open spec fn passing(&self, b: Seq<int>, p: spec_fn(int) -> bool) -> spec_fn(int) -> bool {
        |i: int| p(i) && self.lets_somewhere(b, i)
    }

    pub open spec fn lets_somewhere(&self, b: Seq<int>, i: int) -> bool {
        exists|r: int| 0 <= r < b.len() - 1 && b[r] <= i < b[r + 1] && #[trigger] self.lets(b, r, i)
    }

    /// Whether the hit at stream index `code`, inside the row
    /// `row_start..row_end`, passes.
    pub fn passes(&self, code: usize, row_start: usize, row_end: usize, Ghost(b): Ghost<Seq<int>>, Ghost(r): Ghost<int>, Ghost(n): Ghost<int>) -> (ok: bool)
        requires
            self.ready(b, n),
            0 <= r < b.len() - 1,
            b[r] == row_start,
            b[r + 1] == row_end,
            row_start <= code < row_end,
        ensures
            ok == self.lets(b, r, code as int),
    {
        match self {
            Check::Superset => true,
            Check::Walk { walk, dict, codes } => {
                proof {
                    assert(b[r] <= b[r + 1]);
                    assert(b[r + 1] <= n);
                }
                walk.check(*dict, codes, row_start, row_end, code)
            },
        }
    }
}

/// Where the resolver is in the rows.
pub struct Cursor<'a, O> {
    row_offsets: &'a [O],
    /// Row of the most recent hit.
    row: usize,
    /// End of the row that was emitted last, or zero before the first.
    emitted_end: usize,
}

impl<'a, O: Offset> Cursor<'a, O> {
    /// The row bounds.
    pub closed spec fn bounds(&self) -> Seq<int> {
        bounds(self.row_offsets@)
    }

    /// The rows with a hit below `at` are those that were added to `out0`.
    pub closed spec fn is_at(
        &self,
        n: int,
        p: spec_fn(int) -> bool,
        at: int,
        out0: Seq<usize>,
        out: Seq<usize>,
    ) -> bool {
        let b = self.bounds();
        &&& rows_ok(b, usize::MAX as int)
        &&& n <= usize::MAX
        &&& 0 <= at <= n
        &&& out == out0 + selected_rows(row_count(b), rows_with(b, upto(p, at)))
        &&& self.row == 0 || (self.row + 1 < b.len() && b[self.row as int] <= at)
        &&& forall|i: int| self.emitted_end <= i < at ==> !#[trigger] p(i)
        &&& self.emitted_end > 0 ==> exists|r: int|
            0 <= r < b.len() - 1 && #[trigger] self.emitted(r) && has_hit(b, upto(p, at), r)
    }

    spec fn emitted(&self, r: int) -> bool {
        self.emitted_end == self.bounds()[r + 1]
    }

    pub fn new(
        row_offsets: &'a [O],
        Ghost(n): Ghost<int>,
        Ghost(p): Ghost<spec_fn(int) -> bool>,
        Ghost(out): Ghost<Seq<usize>>,
    ) -> (r: Cursor<'a, O>)
        requires
            rows_ok(bounds(row_offsets@), usize::MAX as int),
            0 <= n <= usize::MAX,
        ensures
            r.bounds() == bounds(row_offsets@),
            r.is_at(n, p, 0, out, out),
    {
        let r = Cursor { row_offsets, row: 0, emitted_end: 0 };
        proof {
            let b = bounds(row_offsets@);
            let q = rows_with(b, upto(p, 0));
            assert forall|x: int| 0 <= x < row_count(b) implies !#[trigger] q(x) by {
                if q(x) {
                    let i = choose|i: int| b[x] <= i < b[x + 1] && #[trigger] upto(p, 0)(i);
                    lemma_bound_in(b, usize::MAX as int, x);
                }
            }
            lemma_selected_skip(0, row_count(b), q);
            assert(out + selected_rows(row_count(b), q) =~= out);
        }
        r
    }

    /// Positions without a hit, or in a row that was emitted, add no row.
    pub proof fn lemma_skip(
        &self,
        n: int,
        p: spec_fn(int) -> bool,
        at: int,
        to: int,
        out0: Seq<usize>,
        out: Seq<usize>,
    )
        requires
            self.is_at(n, p, at, out0, out),
            at <= to <= n,
            forall|i: int| at <= i < to ==> !#[trigger] p(i) || self.emits_past(i),
        ensures
            self.is_at(n, p, to, out0, out),
    {
        let b = self.bounds();
        let q = rows_with(b, upto(p, at));
        let s = rows_with(b, upto(p, to));
        assert forall|x: int| 0 <= x < row_count(b) implies #[trigger] q(x) == s(x) by {
            if q(x) {
                let i = choose|i: int| b[x] <= i < b[x + 1] && #[trigger] upto(p, at)(i);
                assert(upto(p, to)(i));
            }
            if s(x) {
                let i = choose|i: int| b[x] <= i < b[x + 1] && #[trigger] upto(p, to)(i);
                assert(p(i));
                if i < at {
                    assert(upto(p, at)(i));
                } else {
                    assert(self.emits_past(i));
                    let r = choose|r: int|
                        0 <= r < b.len() - 1 && #[trigger] self.emitted(r) && has_hit(
                            b,
                            upto(p, at),
                            r,
                        );
                    let h = choose|h: int| b[r] <= h < b[r + 1] && #[trigger] upto(p, at)(h);
                    lemma_one_row(b, usize::MAX as int, i, x, r);
                }
            }
        }
        lemma_selected_agree(row_count(b), q, s);
        if self.emitted_end > 0 {
            let r = choose|r: int|
                0 <= r < b.len() - 1 && #[trigger] self.emitted(r) && has_hit(b, upto(p, at), r);
            let h = choose|h: int| b[r] <= h < b[r + 1] && #[trigger] upto(p, at)(h);
            assert(upto(p, to)(h));
            assert(has_hit(b, upto(p, to), r));
        }
    }

    /// The row that was emitted last ends after position `i`.
    pub closed spec fn emits_past(&self, i: int) -> bool {
        i < self.emitted_end
    }

    /// A row with a hit at `c` that comes after all that were emitted.
    proof fn lemma_new_row(
        &self,
        n: int,
        p: spec_fn(int) -> bool,
        c: int,
        r: int,
        out0: Seq<usize>,
        out: Seq<usize>,
    )
        requires
            self.is_at(n, p, c, out0, out),
            self.emitted_end <= c < n,
            p(c),
            0 <= r,
            r + 1 < self.bounds().len(),
            self.bounds()[r] <= c < self.bounds()[r + 1],
        ensures
            selected_rows(
                row_count(self.bounds()),
                rows_with(self.bounds(), upto(p, c + 1)),
            ) == selected_rows(
                row_count(self.bounds()),
                rows_with(self.bounds(), upto(p, c)),
            ).push(r as usize),
    {
        let b = self.bounds();
        let m = row_count(b);
        let q = rows_with(b, upto(p, c));
        let s = rows_with(b, upto(p, c + 1));
        assert(s(r)) by {
            assert(upto(p, c + 1)(c));
        }
        assert forall|x: int| r < x < m implies !#[trigger] s(x) by {
            if s(x) {
                let i = choose|i: int| b[x] <= i < b[x + 1] && #[trigger] upto(p, c + 1)(i);
                if x > r + 1 {
                    assert(b[r + 1] <= b[x]);
                }
            }
        }
        assert forall|x: int| r <= x < m implies !#[trigger] q(x) by {
            if q(x) {
                let i = choose|i: int| b[x] <= i < b[x + 1] && #[trigger] upto(p, c)(i);
                assert(p(i));
                lemma_bound_in(b, usize::MAX as int, x);
                assert(i < self.emitted_end);
                let e = choose|e: int|
                    0 <= e < b.len() - 1 && #[trigger] self.emitted(e) && has_hit(b, upto(p, c), e);
                if r < x {
                    assert(b[r] <= b[x]);
                }
                if e < r {
                    if e + 1 < r {
                        assert(b[e + 1] <= b[r]);
                    }
                } else {
                    if r < e {
                        assert(b[r + 1] <= b[e + 1]);
                    }
                }
            }
        }
        assert forall|x: int| 0 <= x < r implies #[trigger] q(x) == s(x) by {
            if q(x) {
                let i = choose|i: int| b[x] <= i < b[x + 1] && #[trigger] upto(p, c)(i);
                assert(upto(p, c + 1)(i));
            }
            if s(x) {
                let i = choose|i: int| b[x] <= i < b[x + 1] && #[trigger] upto(p, c + 1)(i);
                if x + 1 < r {
                    assert(b[x + 1] <= b[r]);
                }
                assert(upto(p, c)(i));
            }
        }
        lemma_selected_skip(r as nat, m, q);
        lemma_selected_skip((r + 1) as nat, m, s);
        lemma_selected_agree(r as nat, q, s);
        assert(selected_rows((r + 1) as nat, s) == selected_rows(r as nat, s).push(r as usize));
    }

    /// Resolves the hit at `code`: its row is emitted unless it was, if the
    /// check passes there.
    fn hit<S: Seek>(
        &mut self,
        code: usize,
        check: &Check<'_>,
        out: &mut Vec<usize>,
        Ghost(n): Ghost<int>,
        Ghost(p): Ghost<spec_fn(int) -> bool>,
        Ghost(out0): Ghost<Seq<usize>>,
    )
        requires
            check.ready(old(self).bounds(), n),
            old(self).is_at(
                n,
                check.passing(old(self).bounds(), p),
                code as int,
                out0,
                old(out)@,
            ),
            hits_in_rows(old(self).bounds(), n, p),
            code < n,
            p(code as int),
        ensures
            final(self).bounds() == old(self).bounds(),
            final(self).is_at(
                n,
                check.passing(old(self).bounds(), p),
                code + 1,
                out0,
                final(out)@,
            ),
    {
        let ghost b = self.bounds();
        let ghost pp = check.passing(b, p);
        let ghost c = code as int;
        if code < self.emitted_end {
            proof {
                self.lemma_skip(n, pp, c, c + 1, out0, out@);
            }
            return;
        }
        let len: usize = self.row_offsets.len();
        assert(in_rows(b, c));
        let row: usize = S::seek(self.row_offsets, self.row, code);
        proof {
            lemma_bound_in(b, usize::MAX as int, row as int);
            lemma_bound_in(b, usize::MAX as int, row + 1);
        }
        assert(row + 1 < len);
        let start: usize = bound_at(self.row_offsets, row);
        let end: usize = bound_at(self.row_offsets, row + 1);
        let ok: bool = check.passes(code, start, end, Ghost(b), Ghost(row as int), Ghost(n));
        proof {
            assert(pp(c) == ok) by {
                if ok {
                    assert(check.lets(b, row as int, c));
                }
                if pp(c) {
                    let r = choose|r: int|
                        0 <= r < b.len() - 1 && b[r] <= c < b[r + 1] && #[trigger] check.lets(
                            b,
                            r,
                            c,
                        );
                    lemma_one_row(b, usize::MAX as int, c, r, row as int);
                }
            }
        }
        if ok {
            proof {
                self.lemma_new_row(n, pp, c, row as int, out0, out@);
            }
            out.push(row);
            self.row = row;
            self.emitted_end = end;
            proof {
                let before = selected_rows(row_count(b), rows_with(b, upto(pp, c)));
                assert(out0 + before.push(row) =~= (out0 + before).push(row));
                assert(upto(pp, c + 1)(c));
                assert(has_hit(b, upto(pp, c + 1), row as int));
                assert(self.emitted(row as int));
            }
        } else {
            let ghost was = *self;
            proof {
                self.lemma_skip(n, pp, c, c + 1, out0, out@);
            }
            self.row = row;
            proof {
                if self.emitted_end > 0 {
                    let r = choose|r: int|
                        0 <= r < b.len() - 1 && #[trigger] was.emitted(r) && has_hit(
                            b,
                            upto(pp, c + 1),
                            r,
                        );
                    assert(self.emitted(r));
                }
            }
        }
    }

    /// Emits the rows that the mask of a block names, `first_code` being the
    /// stream index of the block's first bit. Only the bits below `valid`
    /// stand for codes, and no other is set.
    pub fn rows<S: Seek>(
        &mut self,
        bits: &Vec<u64>,
        first_code: usize,
        check: &Check<'_>,
        out: &mut Vec<usize>,
        Ghost(valid): Ghost<int>,
        Ghost(n): Ghost<int>,
        Ghost(p): Ghost<spec_fn(int) -> bool>,
        Ghost(out0): Ghost<Seq<usize>>,
    )
        requires
            check.ready(old(self).bounds(), n),
            old(self).is_at(
                n,
                check.passing(old(self).bounds(), p),
                first_code as int,
                out0,
                old(out)@,
            ),
            hits_in_rows(old(self).bounds(), n, p),
            0 <= valid <= 64 * bits@.len(),
            first_code + valid <= n <= usize::MAX,
            forall|i: int|
                0 <= i < 64 * bits@.len() ==> (#[trigger] mask_bit(bits@, i) <==> i < valid && p(
                    first_code + i,
                )),
        ensures
            final(self).bounds() == old(self).bounds(),
            final(self).is_at(
                n,
                check.passing(old(self).bounds(), p),
                first_code + valid,
                out0,
                final(out)@,
            ),
    {
        let ghost b = self.bounds();
        let ghost pp = check.passing(b, p);
        let words: usize = bits.len();
        let ghost mut at: int = 0;
        let mut w: usize = 0;
        while w < words
            invariant
                check.ready(b, n),
                hits_in_rows(b, n, p),
                self.bounds() == b,
                old(self).bounds() == b,
                pp == check.passing(b, p),
                words == bits@.len(),
                w <= words,
                0 <= valid <= 64 * bits@.len(),
                first_code + valid <= n <= usize::MAX,
                at == if 64 * w < valid {
                    64 * w
                } else {
                    valid
                },
                self.is_at(n, pp, first_code + at, out0, out@),
                forall|i: int|
                    0 <= i < 64 * bits@.len() ==> (#[trigger] mask_bit(bits@, i) <==> i < valid && p(
                        first_code + i,
                    )),
            decreases words - w,
        {
            let mut word: u64 = bits[w];
            let ghost whole = word;
            let ghost stop: int = if 64 * (w + 1) < valid {
                64 * (w + 1)
            } else {
                valid
            };
            let ghost mut lo: int = 0;
            proof {
                assert forall|j: int| 0 <= j < 64 implies (#[trigger] bit(whole, j) <==> 64 * w + j
                    < valid && p(first_code + 64 * w + j)) by {
                    assert((64 * w + j) / 64 == w && (64 * w + j) % 64 == j);
                    assert(mask_bit(bits@, 64 * w + j) == bit(whole, j));
                    assert(first_code + (64 * w + j) == first_code + 64 * w + j);
                }
            }
            while word != 0
                invariant
                    check.ready(b, n),
                    hits_in_rows(b, n, p),
                    self.bounds() == b,
                    old(self).bounds() == b,
                    pp == check.passing(b, p),
                    w < words,
                    first_code + valid <= n <= usize::MAX,
                    0 <= at <= stop <= valid,
                    at == lo + 64 * w || (at == valid && valid <= 64 * w),
                    0 <= lo <= 64,
                    stop == if 64 * (w + 1) < valid {
                        64 * (w + 1)
                    } else {
                        valid
                    },
                    self.is_at(n, pp, first_code + at, out0, out@),
                    forall|j: int|
                        0 <= j < 64 ==> (#[trigger] bit(whole, j) <==> 64 * w + j < valid && p(
                            first_code + 64 * w + j,
                        )),
                    forall|j: int|
                        0 <= j < 64 ==> (#[trigger] bit(word, j) <==> bit(whole, j) && j >= lo),
                decreases word,
            {
                let tz: usize = word.trailing_zeros() as usize;
                let ghost before = word;
                proof {
                    lemma_lowest(word);
                    assert(bit(word, tz as int));
                    assert(bit(whole, tz as int));
                    lemma_clear_lowest(word, 0);
                    assert forall|i: int| first_code + at <= i < first_code + 64 * w + tz implies !#[trigger] pp(
                        i,
                    ) by {
                        let j = i - first_code - 64 * w;
                        assert(!bit(word, j));
                        assert(bit(whole, j) <==> 64 * w + j < valid && p(first_code + 64 * w + j));
                    }
                    self.lemma_skip(
                        n,
                        pp,
                        first_code + at,
                        first_code + 64 * w + tz,
                        out0,
                        out@,
                    );
                }
                let code: usize = first_code + 64 * w + tz;
                self.hit::<S>(code, check, out, Ghost(n), Ghost(p), Ghost(out0));
                word = word & (word - 1);
                proof {
                    lo = tz + 1;
                    at = 64 * w + tz + 1;
                    assert forall|j: int| 0 <= j < 64 implies (#[trigger] bit(word, j) <==> bit(
                        whole,
                        j,
                    ) && j >= lo) by {
                        lemma_clear_lowest(before, j);
                        if j < tz {
                            assert(!bit(before, j));
                        }
                    }
                }
            }
            proof {
                lemma_lowest(word);
                assert forall|i: int| first_code + at <= i < first_code + stop implies !#[trigger] pp(
                    i,
                ) by {
                    let j = i - first_code - 64 * w;
                    assert(!bit(word, j));
                    assert(bit(whole, j) <==> 64 * w + j < valid && p(first_code + 64 * w + j));
                }
                self.lemma_skip(n, pp, first_code + at, first_code + stop, out0, out@);
                at = stop;
            }
            w = w + 1;
        }
    }

    /// Everything was visited: the rows that hold a hit were emitted.
    pub proof fn lemma_done(
        &self,
        n: int,
        p: spec_fn(int) -> bool,
        out0: Seq<usize>,
        out: Seq<usize>,
    )
        requires
            self.is_at(n, p, n, out0, out),
            forall|i: int| #[trigger] p(i) ==> i < n,
        ensures
            out == out0 + selected_rows(row_count(self.bounds()), rows_with(self.bounds(), p)),
    {
        let b = self.bounds();
        let q = rows_with(b, upto(p, n));
        let s = rows_with(b, p);
        assert forall|x: int| 0 <= x < row_count(b) implies #[trigger] q(x) == s(x) by {
            if q(x) {
                let i = choose|i: int| b[x] <= i < b[x + 1] && #[trigger] upto(p, n)(i);
                assert(p(i));
            }
            if s(x) {
                let i = choose|i: int| b[x] <= i < b[x + 1] && #[trigger] p(i);
                assert(upto(p, n)(i));
            }
        }
        lemma_selected_agree(row_count(b), q, s);
    }
}

} // verus!
