//! The split scan: codes to bit mask, bit mask to rows, every hit verified.

use crate::bits::{bit, lemma_and, lemma_low_ones, lemma_zero, mask_bit};
use crate::rows::{bounds, count_rows, row_count, selected_rows, Offset};
use crate::search::prefilter::cover::ProbeCover;
use crate::search::prefilter::scan::matcher::{EqOr, Matcher, NibbleN8, Range, Table, BLOCK, WORDS};
use crate::search::prefilter::scan::policy::{expected_hits, projected};
use crate::search::prefilter::scan::resolver::{
    hits_in_rows, Check, Cursor, GallopSeek, LinearSeek, Seek,
};
use crate::search::prefilter::scan::sink::{hits, rows_with};
use crate::types::Token;
use vstd::prelude::*;

verus! {

/// What the scan will be handed, without inspecting code values.
#[derive(Clone, Copy, Debug, Eq, PartialEq, Structural)]
pub struct Facts {
    pub expected_hits: usize,
    pub code_count: usize,
    pub row_count: usize,
}

/// The region that the scan will see and the hits it can expect there, or
/// `None` where it admits nothing: a cover without a probe, or no rows.
pub fn facts<O: Offset>(
    codes: &[Token],
    row_offsets: &[O],
    cover: &ProbeCover,
    covered_frequency: usize,
    total_frequency: usize,
) -> (r: Option<Facts>)
    ensures
        r is None <==> (cover.point_list().len() == 0 && cover.range_list().len() == 0) || row_count(
            bounds(row_offsets@),
        ) == 0,
        r matches Some(f) ==> f.code_count == codes@.len() && f.row_count == row_count(
            bounds(row_offsets@),
        ) && f.expected_hits == projected(
            covered_frequency as int,
            total_frequency as int,
            codes@.len() as int,
        ),
{
    let rows: usize = count_rows(row_offsets);
    if cover.is_empty() || rows == 0 {
        return None;
    }
    Some(
        Facts {
            expected_hits: expected_hits(covered_frequency, total_frequency, codes.len()),
            code_count: codes.len(),
            row_count: rows,
        },
    )
}

/// Clears the bits from position `valid` on.
pub fn clear_from(bits: &mut Vec<u64>, valid: usize)
    requires
        old(bits)@.len() == WORDS,
    ensures
        final(bits)@.len() == WORDS,
        forall|i: int|
            0 <= i < BLOCK ==> (#[trigger] mask_bit(final(bits)@, i) <==> mask_bit(old(bits)@, i)
                && i < valid),
{
    let ghost before = bits@;
    if valid >= BLOCK {
        return;
    }
    let first: usize = valid / 64;
    proof {
        lemma_low_ones((valid % 64) as int, 0);
    }
    let keep: u64 = (1u64 << ((valid % 64) as u64)) - 1;
    let word: u64 = bits[first];
    bits.set(first, word & keep);
    let mut w: usize = first + 1;
    while w < WORDS
        invariant
            first < w <= WORDS,
            bits@.len() == WORDS,
            before.len() == WORDS,
            bits@[first as int] == word & keep,
            forall|k: int| 0 <= k < first ==> #[trigger] bits@[k] == before[k],
            forall|k: int| first < k < w ==> #[trigger] bits@[k] == 0,
        decreases WORDS - w,
    {
        bits.set(w, 0);
        w = w + 1;
    }
    proof {
        assert forall|i: int| 0 <= i < BLOCK implies (#[trigger] mask_bit(bits@, i) <==> mask_bit(
            before,
            i,
        ) && i < valid) by {
            let k = i / 64;
            if k == first {
                lemma_and(word, keep, i % 64);
                lemma_low_ones((valid % 64) as int, i % 64);
            } else if k > first {
                lemma_zero(i % 64);
            }
        }
    }
}

/// The last block of a stream, padded with zeros.
fn padded(codes: &[Token], at: usize) -> (tail: Vec<Token>)
    requires
        at <= codes@.len(),
        codes@.len() - at < BLOCK,
    ensures
        tail@.len() == BLOCK,
        forall|i: int| 0 <= i < codes@.len() - at ==> #[trigger] tail@[i] == codes@[at + i],
{
    let total: usize = codes.len();
    let mut tail: Vec<Token> = Vec::new();
    while tail.len() < BLOCK
        invariant
            tail@.len() <= BLOCK,
            total == codes@.len(),
            at <= total,
            forall|i: int|
                0 <= i < tail@.len() && i < total - at ==> #[trigger] tail@[i] == codes@[at + i],
        decreases BLOCK - tail@.len(),
    {
        let i: usize = tail.len();
        let code: Token = if i < total - at {
            codes[at + i]
        } else {
            0
        };
        tail.push(code);
    }
    tail
}

/// The rows that hold a covered code which passes the check were appended.
pub open spec fn verified<O: Offset>(
    before: Seq<usize>,
    after: Seq<usize>,
    codes: Seq<Token>,
    row_offsets: Seq<O>,
    cover: &ProbeCover,
    check: &Check<'_>,
) -> bool {
    let b = bounds(row_offsets);
    after == before + selected_rows(
        row_count(b),
        rows_with(b, check.passing(b, hits(cover, codes))),
    )
}

/// A stream, a cover, and rows that hold all that it covers.
pub open spec fn can_resolve<O: Offset>(
    codes: Seq<Token>,
    row_offsets: Seq<O>,
    cover: &ProbeCover,
) -> bool {
    &&& cover.wf()
    &&& cover.proper()
    &&& hits_in_rows(bounds(row_offsets), codes.len() as int, hits(cover, codes))
}

/// Both stages over a whole stream, in whole blocks straight out of it and
/// through a padded copy at the end.
pub fn both_stages<M: Matcher, S: Seek, O: Offset>(
    cover: &ProbeCover,
    codes: &[Token],
    row_offsets: &[O],
    check: &Check<'_>,
    out: &mut Vec<usize>,
)
    requires
        can_resolve(codes@, row_offsets@, cover),
        check.ready(bounds(row_offsets@), codes@.len() as int),
    ensures
        verified(old(out)@, final(out)@, codes@, row_offsets@, cover, check),
{
    let ghost b = bounds(row_offsets@);
    let ghost p = hits(cover, codes@);
    let ghost pp = check.passing(b, p);
    let ghost out0 = out@;
    let n: usize = codes.len();
    let matcher = M::new(cover);
    let mut cursor = Cursor::new(row_offsets, Ghost(n as int), Ghost(pp), Ghost(out0));
    let mut bits: Vec<u64> = vec![0u64; WORDS];
    let mut at: usize = 0;
    while n - at >= BLOCK
        invariant
            check.ready(b, n as int),
            hits_in_rows(b, n as int, p),
            n == codes@.len(),
            at <= n,
            p == hits(cover, codes@),
            pp == check.passing(b, p),
            matcher.ready(),
            forall|c: int| 0 <= c <= 0xFFFF ==> (#[trigger] matcher.admits(c) <==> cover.has(c)),
            bits@.len() == WORDS,
            cursor.bounds() == b,
            cursor.is_at(n as int, pp, at as int, out0, out@),
        decreases n - at,
    {
        let block = &codes[at..at + BLOCK];
        let any: bool = matcher.check(block, &mut bits);
        proof {
            assert forall|i: int| 0 <= i < 64 * bits@.len() implies (#[trigger] mask_bit(bits@, i)
                <==> i < BLOCK && p(at + i)) by {
                assert(block@[i] == codes@[at + i]);
                assert(matcher.admits(block@[i] as int) <==> cover.has(block@[i] as int));
            }
        }
        if any {
            cursor.rows::<S>(
                &bits,
                at,
                check,
                out,
                Ghost(BLOCK as int),
                Ghost(n as int),
                Ghost(p),
                Ghost(out0),
            );
        } else {
            proof {
                assert forall|i: int| at <= i < at + BLOCK implies !#[trigger] pp(i) by {
                    assert(!mask_bit(bits@, i - at));
                    assert(mask_bit(bits@, i - at) <==> i - at < BLOCK && p(at + (i - at)));
                }
                cursor.lemma_skip(n as int, pp, at as int, at + BLOCK, out0, out@);
            }
        }
        at = at + BLOCK;
    }
    if at < n {
        let rest: usize = n - at;
        let tail = padded(codes, at);
        let any: bool = matcher.check(tail.as_slice(), &mut bits);
        let ghost raw = bits@;
        proof {
            assert forall|i: int| 0 <= i < rest implies (#[trigger] mask_bit(raw, i) <==> p(
                at + i,
            )) by {
                assert(tail@[i] == codes@[at + i]);
                assert(matcher.admits(tail@[i] as int) <==> cover.has(tail@[i] as int));
            }
        }
        if any {
            clear_from(&mut bits, rest);
            proof {
                assert forall|i: int| 0 <= i < 64 * bits@.len() implies (#[trigger] mask_bit(
                    bits@,
                    i,
                ) <==> i < rest && p(at + i)) by {
                    assert(mask_bit(bits@, i) <==> mask_bit(raw, i) && i < rest);
                }
            }
            cursor.rows::<S>(
                &bits,
                at,
                check,
                out,
                Ghost(rest as int),
                Ghost(n as int),
                Ghost(p),
                Ghost(out0),
            );
        } else {
            proof {
                assert forall|i: int| at <= i < n implies !#[trigger] pp(i) by {
                    assert(!mask_bit(raw, i - at));
                    assert(p(at + (i - at)) == mask_bit(raw, i - at));
                }
                cursor.lemma_skip(n as int, pp, at as int, n as int, out0, out@);
            }
        }
    }
    proof {
        cursor.lemma_done(n as int, pp, out0, out@);
    }
}

/// The rows that a mask over a whole stream names, resolved block by block.
pub fn resolve<S: Seek, O: Offset>(mask: &[u64], row_offsets: &[O]) -> (out: Vec<usize>)
    requires
        mask@.len() % 64 == 0,
        64 * mask@.len() <= usize::MAX,
        hits_in_rows(bounds(row_offsets@), 64 * mask@.len() as int, marked(mask@)),
    ensures
        out@ == selected_rows(
            row_count(bounds(row_offsets@)),
            rows_with(bounds(row_offsets@), marked(mask@)),
        ),
{
    let ghost b = bounds(row_offsets@);
    let ghost p = marked(mask@);
    let check = Check::Superset;
    let ghost pp = check.passing(b, p);
    let words: usize = mask.len();
    let ghost n = 64 * words as int;
    let mut out: Vec<usize> = Vec::new();
    let ghost out0 = out@;
    let mut cursor = Cursor::new(row_offsets, Ghost(n), Ghost(pp), Ghost(out0));
    let mut at: usize = 0;
    while at < words
        invariant
            check is Superset,
            hits_in_rows(b, n, p),
            words == mask@.len(),
            words % 64 == 0,
            at % 64 == 0,
            at <= words,
            n == 64 * words,
            n <= usize::MAX,
            p == marked(mask@),
            pp == check.passing(b, p),
            cursor.bounds() == b,
            cursor.is_at(n, pp, 64 * at, out0, out@),
        decreases words - at,
    {
        let bits: Vec<u64> = vstd::slice::slice_to_vec(&mask[at..at + WORDS]);
        proof {
            assert forall|i: int| 0 <= i < 64 * bits@.len() implies (#[trigger] mask_bit(bits@, i)
                <==> i < BLOCK && p(64 * at + i)) by {
                assert((64 * at + i) / 64 == at + i / 64);
                assert((64 * at + i) % 64 == i % 64);
                assert(bits@[i / 64] == mask@[at + i / 64]);
            }
        }
        cursor.rows::<S>(
            &bits,
            64 * at,
            &check,
            &mut out,
            Ghost(BLOCK as int),
            Ghost(n),
            Ghost(p),
            Ghost(out0),
        );
        at = at + WORDS;
    }
    proof {
        cursor.lemma_done(n, pp, out0, out@);
        let q = rows_with(b, pp);
        let s = rows_with(b, p);
        assert forall|x: int| 0 <= x < row_count(b) implies #[trigger] q(x) == s(x) by {
            if q(x) {
                let i = choose|i: int| b[x] <= i < b[x + 1] && #[trigger] pp(i);
                assert(p(i));
            }
            if s(x) {
                let i = choose|i: int| b[x] <= i < b[x + 1] && #[trigger] p(i);
                assert(check.lets(b, x, i));
                assert(pp(i));
            }
        }
        crate::rows::lemma_selected_agree(row_count(b), q, s);
        assert(out0 + selected_rows(row_count(b), q) =~= selected_rows(row_count(b), q));
    }
    out
}

/// The positions whose bit is set.
pub open spec fn marked(mask: Seq<u64>) -> spec_fn(int) -> bool {
    |i: int| 0 <= i < 64 * mask.len() && mask_bit(mask, i)
}

/// The matcher that serves a cover.
#[derive(Clone, Copy, Debug, Eq, PartialEq, Structural)]
pub enum Match {
    Table,
    EqOr,
    Range,
    NibbleN8,
}

/// Ranges alone, a few comparisons, up to three batches of points, or a table.
pub fn select_matcher(cover: &ProbeCover) -> (r: Match)
    ensures
        r == if cover.point_list().len() == 0 {
            Match::Range
        } else if cover.point_list().len() <= 3 {
            Match::EqOr
        } else if cover.point_list().len() <= 24 {
            Match::NibbleN8
        } else {
            Match::Table
        },
{
    let points: usize = cover.points().len();
    if points == 0 {
        Match::Range
    } else if points <= 3 {
        Match::EqOr
    } else if points <= 24 {
        Match::NibbleN8
    } else {
        Match::Table
    }
}

/// Runs the split scan that the facts call for: rare hits are galloped to.
pub fn execute_check<O: Offset>(
    plan: Option<Facts>,
    codes: &[Token],
    row_offsets: &[O],
    cover: &ProbeCover,
    check: &Check<'_>,
    out: &mut Vec<usize>,
)
    requires
        can_resolve(codes@, row_offsets@, cover),
        check.ready(bounds(row_offsets@), codes@.len() as int),
        plan is None ==> (cover.point_list().len() == 0 && cover.range_list().len() == 0)
            || row_count(bounds(row_offsets@)) == 0,
    ensures
        verified(old(out)@, final(out)@, codes@, row_offsets@, cover, check),
{
    let facts: Facts = match plan {
        Some(facts) => facts,
        None => {
            proof {
                let b = bounds(row_offsets@);
                let q = rows_with(b, check.passing(b, hits(cover, codes@)));
                assert forall|r: int| 0 <= r < row_count(b) implies !#[trigger] q(r) by {
                    assert forall|i: int| !#[trigger] check.passing(b, hits(cover, codes@))(i) by {}
                }
                crate::rows::lemma_selected_skip(0, row_count(b), q);
                assert(out@ + selected_rows(row_count(b), q) =~= out@);
            }
            return;
        },
    };
    let rare: bool = facts.expected_hits < facts.row_count / 16;
    match (select_matcher(cover), rare) {
        (Match::Table, true) => both_stages::<Table, GallopSeek, O>(
            cover,
            codes,
            row_offsets,
            check,
            out,
        ),
        (Match::Table, false) => both_stages::<Table, LinearSeek, O>(
            cover,
            codes,
            row_offsets,
            check,
            out,
        ),
        (Match::EqOr, true) => both_stages::<EqOr, GallopSeek, O>(
            cover,
            codes,
            row_offsets,
            check,
            out,
        ),
        (Match::EqOr, false) => both_stages::<EqOr, LinearSeek, O>(
            cover,
            codes,
            row_offsets,
            check,
            out,
        ),
        (Match::Range, true) => both_stages::<Range, GallopSeek, O>(
            cover,
            codes,
            row_offsets,
            check,
            out,
        ),
        (Match::Range, false) => both_stages::<Range, LinearSeek, O>(
            cover,
            codes,
            row_offsets,
            check,
            out,
        ),
        (Match::NibbleN8, true) => both_stages::<NibbleN8, GallopSeek, O>(
            cover,
            codes,
            row_offsets,
            check,
            out,
        ),
        (Match::NibbleN8, false) => both_stages::<NibbleN8, LinearSeek, O>(
            cover,
            codes,
            row_offsets,
            check,
            out,
        ),
    }
}

/// A check-free scan by stages lists just what a scan lists: the rows with a
/// covered code. A scan with a walk lists of these the rows where the walk
/// passes at some covered code.
pub proof fn lemma_stages_mean<O: Offset>(
    before: Seq<usize>,
    after: Seq<usize>,
    codes: Seq<Token>,
    row_offsets: Seq<O>,
    cover: &ProbeCover,
    check: &Check<'_>,
    r: usize,
)
    requires
        verified(before, after, codes, row_offsets, cover, check),
        row_offsets.len() <= usize::MAX,
        crate::rows::rows_ok(bounds(row_offsets), usize::MAX as int),
    ensures
        before.len() <= after.len(),
        after.take(before.len() as int) =~= before,
        forall|i: int, j: int|
            before.len() <= i < j < after.len() ==> #[trigger] after[i] < #[trigger] after[j],
        after.skip(before.len() as int).contains(r) <==> r + 1 < row_offsets.len() && exists|i: int|
            row_offsets[r as int].value() <= i < row_offsets[r + 1].value() && 0 <= i < codes.len()
                && cover.has(#[trigger] codes[i] as int) && check.lets(
                bounds(row_offsets),
                r as int,
                i,
            ),
        check is Superset ==> forall|x: int, i: int| #[trigger]
            check.lets(bounds(row_offsets), x, i),
{
    let b = bounds(row_offsets);
    let p = hits(cover, codes);
    let pp = check.passing(b, p);
    let q = rows_with(b, pp);
    let rows = row_count(b);
    let found = selected_rows(rows, q);
    crate::rows::lemma_selected_rows_member(rows, q);
    assert(after.skip(before.len() as int) =~= found);
    assert forall|i: int, j: int| before.len() <= i < j < after.len() implies #[trigger] after[i]
        < #[trigger] after[j] by {
        assert(after[i] == found[i - before.len()]);
        assert(after[j] == found[j - before.len()]);
    }
    assert(found.contains(r) <==> r < rows && q(r as int));
    if r < rows {
        if q(r as int) {
            let i = choose|i: int| b[r as int] <= i < b[r + 1] && #[trigger] pp(i);
            let x = choose|x: int|
                0 <= x < b.len() - 1 && b[x] <= i < b[x + 1] && #[trigger] check.lets(b, x, i);
            crate::search::prefilter::scan::sink::lemma_one_row(
                b,
                usize::MAX as int,
                i,
                x,
                r as int,
            );
            assert(p(i));
            assert(cover.has(codes[i] as int));
        }
        if exists|i: int|
            row_offsets[r as int].value() <= i < row_offsets[r + 1].value() && 0 <= i < codes.len()
                && cover.has(#[trigger] codes[i] as int) && check.lets(b, r as int, i) {
            let i = choose|i: int|
                row_offsets[r as int].value() <= i < row_offsets[r + 1].value() && 0 <= i
                    < codes.len() && cover.has(#[trigger] codes[i] as int) && check.lets(
                    b,
                    r as int,
                    i,
                );
            assert(p(i));
            assert(check.lets_somewhere(b, i));
            assert(pp(i));
        }
    }
}

/// A mask marks the positions whose bit is set, 64 to a word, lowest first.
pub proof fn lemma_marked_means(mask: Seq<u64>, i: int)
    ensures
        marked(mask)(i) <==> 0 <= i < 64 * mask.len() && (mask[i / 64] >> ((i % 64) as u64)) & 1
            == 1,
{
}

} // verus!
