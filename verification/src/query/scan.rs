//! Row loops shared by the searchers: every row, or the rows a mask leaves.

use crate::bits::{any_bit, any_bit_in_range, mask_bit, words_for};
use crate::dictionary::{codes_ok, decode, row_contains};
use crate::query::filter::next_set_bit;
use crate::rows::{
    bound_at, bounds, count_rows, gallop, lemma_bound_in, lemma_selected_skip, row_codes,
    row_count, rows_ok, selected, span, Offset,
};
use crate::text::contains;
use crate::types::Token;
use vstd::prelude::*;

verus! {

/// A matcher that decides whether one row's codes hold a pattern.
pub trait RowWalk {
    /// The pattern that the matcher looks for.
    spec fn looks_for(&self) -> Seq<u8>;

    /// The tokens of the dictionary that it reads codes of.
    spec fn over(&self) -> Seq<Seq<u8>>;

    /// The matcher is well formed.
    spec fn ready(&self) -> bool;

    /// Whether the row's decoded bytes contain the pattern.
    fn walk(&self, codes: &[Token]) -> (r: bool)
        requires
            self.ready(),
            codes_ok(codes@, self.over().len()),
        ensures
            r == contains(decode(self.over(), codes@), self.looks_for()),
    ;
}

/// The codes of a row name tokens when all codes do.
pub proof fn lemma_row_codes_ok(codes: Seq<Token>, b: Seq<int>, r: int, ntokens: nat)
    requires
        codes_ok(codes, ntokens),
        rows_ok(b, codes.len() as int),
        0 <= r,
        r + 1 < b.len(),
    ensures
        0 <= b[r] <= b[r + 1] <= codes.len(),
        codes_ok(row_codes(codes, b, r), ntokens),
{
    assert(b[r] <= b[r + 1]);
    assert(b[r + 1] <= codes.len());
    assert forall|i: int| 0 <= i < row_codes(codes, b, r).len() implies #[trigger] row_codes(
        codes,
        b,
        r,
    )[i] < ntokens by {
        assert(codes[b[r] + i] < ntokens);
    }
}

/// Walks every row.
pub fn rows_unfiltered<W: RowWalk, O: Offset>(w: &W, codes: &[Token], offsets: &[O]) -> (out: Vec<
    u64,
>)
    requires
        w.ready(),
        codes_ok(codes@, w.over().len()),
        rows_ok(bounds(offsets@), codes@.len() as int),
    ensures
        out@ == selected(
            row_count(bounds(offsets@)),
            row_contains(w.over(), codes@, bounds(offsets@), w.looks_for()),
        ),
{
    let ghost b = bounds(offsets@);
    let ghost pred = row_contains(w.over(), codes@, b, w.looks_for());
    let n: usize = count_rows(offsets);
    let len: usize = codes.len();
    let mut out: Vec<u64> = Vec::new();
    let mut r: usize = 0;
    while r < n
        invariant
            r <= n,
            len == codes@.len(),
            n == row_count(b),
            b == bounds(offsets@),
            w.ready(),
            codes_ok(codes@, w.over().len()),
            rows_ok(b, codes@.len() as int),
            pred == row_contains(w.over(), codes@, b, w.looks_for()),
            out@ == selected(r as nat, pred),
        decreases n - r,
    {
        let (a, z) = span(offsets, r, Ghost(codes@.len() as int));
        proof {
            lemma_row_codes_ok(codes@, b, r as int, w.over().len());
        }
        let row = &codes[a..z];
        assert(row@ == row_codes(codes@, b, r as int));
        let hit: bool = w.walk(row);
        assert(hit == pred(r as int));
        if hit {
            out.push(r as u64);
        }
        r = r + 1;
    }
    out
}

/// The rows whose span holds a set bit that leaves room for `combo` codes.
pub open spec fn windowed(mask: Seq<u64>, b: Seq<int>, combo: int) -> spec_fn(int) -> bool {
    |r: int| b[r + 1] - b[r] >= combo && any_bit(mask, b[r], b[r + 1] - combo + 1)
}

/// Whether the row `a..z` holds a set bit that leaves room for `combo` codes.
fn row_windowed(mask: &Vec<u64>, a: usize, z: usize, combo: usize) -> (r: bool)
    requires
        a <= z,
        combo >= 1,
        z <= 64 * mask@.len(),
    ensures
        r == (z - a >= combo && any_bit(mask@, a as int, z - combo + 1)),
{
    z - a >= combo && any_bit_in_range(mask.as_slice(), a, z - combo + 1)
}

/// The rows that `windowed` holds of.
pub fn rows_windowed<O: Offset>(mask: &Vec<u64>, offsets: &[O], combo: usize, ncodes: usize) -> (out: Vec<
    u64,
>)
    requires
        combo >= 1,
        rows_ok(bounds(offsets@), ncodes as int),
        ncodes <= 64 * mask@.len(),
    ensures
        out@ == selected(
            row_count(bounds(offsets@)),
            windowed(mask@, bounds(offsets@), combo as int),
        ),
{
    let ghost b = bounds(offsets@);
    let ghost pred = windowed(mask@, b, combo as int);
    let n: usize = count_rows(offsets);
    let mut out: Vec<u64> = Vec::new();
    let mut r: usize = 0;
    while r < n
        invariant
            r <= n,
            n == row_count(b),
            b == bounds(offsets@),
            combo >= 1,
            rows_ok(b, ncodes as int),
            ncodes <= 64 * mask@.len(),
            pred == windowed(mask@, b, combo as int),
            out@ == selected(r as nat, pred),
        decreases n - r,
    {
        let (a, z) = span(offsets, r, Ghost(ncodes as int));
        let hit: bool = row_windowed(mask, a, z, combo);
        assert(hit == pred(r as int));
        if hit {
            out.push(r as u64);
        }
        r = r + 1;
    }
    out
}

/// Walks the rows that `windowed` leaves. Where the mask is dense every row's
/// span is tested; where it is sparse the scan gallops from set bit to set bit
/// and skips the rows between wholesale.
pub fn rows_masked<W: RowWalk, O: Offset>(
    w: &W,
    codes: &[Token],
    offsets: &[O],
    mask: &Vec<u64>,
    combo: usize,
    dense: bool,
) -> (out: Vec<u64>)
    requires
        w.ready(),
        codes_ok(codes@, w.over().len()),
        rows_ok(bounds(offsets@), codes@.len() as int),
        combo >= 1,
        mask@.len() == words_for(codes@.len() as int),
        forall|r: int|
            0 <= r < row_count(bounds(offsets@)) && #[trigger] row_contains(
                w.over(),
                codes@,
                bounds(offsets@),
                w.looks_for(),
            )(r) ==> windowed(mask@, bounds(offsets@), combo as int)(r),
    ensures
        out@ == selected(
            row_count(bounds(offsets@)),
            row_contains(w.over(), codes@, bounds(offsets@), w.looks_for()),
        ),
{
    let ghost b = bounds(offsets@);
    let ghost pred = row_contains(w.over(), codes@, b, w.looks_for());
    let ghost cand = windowed(mask@, b, combo as int);
    let n: usize = count_rows(offsets);
    let len: usize = codes.len();
    let mut out: Vec<u64> = Vec::new();
    if n == 0 {
        return out;
    }
    if dense {
        let mut r: usize = 0;
        while r < n
            invariant
                r <= n,
                n == row_count(b),
                b == bounds(offsets@),
                len == codes@.len(),
                combo >= 1,
                w.ready(),
                codes_ok(codes@, w.over().len()),
                rows_ok(b, codes@.len() as int),
                mask@.len() == words_for(codes@.len() as int),
                pred == row_contains(w.over(), codes@, b, w.looks_for()),
                cand == windowed(mask@, b, combo as int),
                forall|q: int| 0 <= q < n && #[trigger] pred(q) ==> cand(q),
                out@ == selected(r as nat, pred),
            decreases n - r,
        {
            let (a, z) = span(offsets, r, Ghost(codes@.len() as int));
            proof {
                lemma_row_codes_ok(codes@, b, r as int, w.over().len());
            }
            let mut hit: bool = row_windowed(mask, a, z, combo);
            assert(hit == cand(r as int));
            if hit {
                let row = &codes[a..z];
                assert(row@ == row_codes(codes@, b, r as int));
                hit = w.walk(row);
            }
            assert(hit == pred(r as int));
            if hit {
                out.push(r as u64);
            }
            r = r + 1;
        }
        return out;
    }
    proof {
        lemma_bound_in(b, codes@.len() as int, 0);
        lemma_bound_in(b, codes@.len() as int, n as int);
        assert(b[0] <= b[n as int]);
    }
    let limit: usize = bound_at(offsets, n);
    let mut done: usize = 0;
    let mut p: usize = next_set_bit(mask.as_slice(), bound_at(offsets, 0), limit);
    while p < limit
        invariant
            n == row_count(b),
            n >= 1,
            b == bounds(offsets@),
            len == codes@.len(),
            combo >= 1,
            w.ready(),
            codes_ok(codes@, w.over().len()),
            rows_ok(b, codes@.len() as int),
            mask@.len() == words_for(codes@.len() as int),
            pred == row_contains(w.over(), codes@, b, w.looks_for()),
            cand == windowed(mask@, b, combo as int),
            forall|q: int| 0 <= q < n && #[trigger] pred(q) ==> cand(q),
            limit == b[n as int],
            limit <= len,
            done <= n,
            b[done as int] <= p <= limit,
            forall|i: int| b[done as int] <= i < p ==> !#[trigger] mask_bit(mask@, i),
            out@ == selected(done as nat, pred),
        decreases limit - p,
    {
        let r: usize = gallop(offsets, done, p, Ghost(codes@.len() as int));
        proof {
            if r == n {
                assert(b[r as int] <= p);
            }
            assert(r < n);
            assert forall|q: int| done <= q < r implies !#[trigger] pred(q) by {
                if pred(q) {
                    assert(cand(q));
                    let i = choose|i: int|
                        b[q] <= i < b[q + 1] - combo + 1 && #[trigger] mask_bit(mask@, i);
                    if q > done {
                        assert(b[done as int] <= b[q]);
                    }
                    if q + 1 < r {
                        assert(b[q + 1] <= b[r as int]);
                    }
                    assert(false);
                }
            }
            lemma_selected_skip(done as nat, r as nat, pred);
            lemma_row_codes_ok(codes@, b, r as int, w.over().len());
        }
        let (a, z) = span(offsets, r, Ghost(codes@.len() as int));
        let mut hit: bool = row_windowed(mask, a, z, combo);
        assert(hit == cand(r as int));
        if hit {
            let row = &codes[a..z];
            assert(row@ == row_codes(codes@, b, r as int));
            hit = w.walk(row);
        }
        assert(hit == pred(r as int));
        if hit {
            out.push(r as u64);
        }
        done = r + 1;
        proof {
            if done < n {
                assert(b[done as int] <= b[n as int]);
            }
        }
        p = next_set_bit(mask.as_slice(), z, limit);
    }
    proof {
        assert forall|q: int| done <= q < n implies !#[trigger] pred(q) by {
            if pred(q) {
                assert(cand(q));
                let i = choose|i: int|
                    b[q] <= i < b[q + 1] - combo + 1 && #[trigger] mask_bit(mask@, i);
                if q > done {
                    assert(b[done as int] <= b[q]);
                }
                if q + 1 < n {
                    assert(b[q + 1] <= b[n as int]);
                }
                assert(false);
            }
        }
        lemma_selected_skip(done as nat, n as nat, pred);
    }
    out
}

/// A row is left just when a set bit of the mask is in it, with room in the row
/// for all codes of its window.
pub proof fn lemma_windowed_means(mask: Seq<u64>, b: Seq<int>, combo: int, r: int)
    requires
        combo >= 1,
    ensures
        windowed(mask, b, combo)(r) <==> exists|i: int|
            b[r] <= i && i + combo <= b[r + 1] && #[trigger] mask_bit(mask, i),
{
    if windowed(mask, b, combo)(r) {
        let i = choose|i: int| b[r] <= i < b[r + 1] - combo + 1 && #[trigger] mask_bit(mask, i);
        assert(mask_bit(mask, i));
    }
}

} // verus!
