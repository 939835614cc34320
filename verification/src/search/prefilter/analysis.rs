//! The analysis of a pattern, and the rows that contain it.

use crate::dictionary::{codes_ok, decode, row_contains, DictView};
use crate::order::conformant;
use crate::rows::{
    append_all_rows, bounds, delimits, every_row, lemma_bound_in, lemma_selected_agree, row_codes,
    row_count, selected_rows, Offset,
};
use crate::search::index::frequency::{TokenFrequencyIndex, TokenFrequencyIndexStorage};
use crate::search::prefilter::cover::{
    is_marked, lemma_marked_at_most, lemma_marked_once, marked_codes, members_sum, shared_ids,
    ProbeCover,
};
use crate::search::prefilter::layout::passes;
use crate::search::prefilter::plan::{is_plan, lemma_plan_is_exact, plan, Plan, MAX_PATTERN_LEN};
use crate::search::prefilter::scan::resolver::Check;
use crate::search::prefilter::scan::sink::{hits, rows_with};
use crate::search::prefilter::scan::stages::{execute_check, facts};
use crate::search::prefilter::walk::Walk;
use crate::search::tokenize::is_greedy;
use crate::text::{contains, lemma_contains_empty};
use crate::types::Token;
use crate::search::index::frequency::counts_exactly;
use crate::search::prefilter::cover::lemma_frequency_counts_covered_codes;
use vstd::prelude::*;
use vstd::set_lib::set_int_range;

verus! {

/// The normalized probe cover selected for a pattern and its frequency, or an
/// all-rows result. An empty pattern matches all rows and needs no probes.
pub struct PrefilterAnalysis {
    pub probe_cover: ProbeCover,
    pub covered_frequency: u32,
    pub total_frequency: u32,
    pub walk: Option<Walk>,
    /// Empty patterns admit even rows without codes, independently of the
    /// cover.
    pub matches_all: bool,
}

/// The cover has no probe.
pub open spec fn no_probe(cover: &ProbeCover) -> bool {
    cover.point_list().len() == 0 && cover.range_list().len() == 0
}

impl PrefilterAnalysis {
    /// The analysis can be executed over a dictionary's codes.
    pub open spec fn wf(&self, tokens: Seq<Seq<u8>>) -> bool {
        &&& self.probe_cover.wf()
        &&& self.probe_cover.proper()
        &&& self.matches_all || no_probe(&self.probe_cover) || (self.walk matches Some(w) && w.wf()
            && w.model().tokens == tokens)
    }

    /// The analysis is that of `pattern` over `tokens`, with weights `sums`.
    pub open spec fn of(&self, tokens: Seq<Seq<u8>>, pattern: Seq<u8>, sums: Seq<u32>) -> bool {
        &&& self.wf(tokens)
        &&& self.total_frequency == sums[sums.len() - 1]
        &&& self.matches_all == (pattern.len() == 0)
        &&& if pattern.len() == 0 {
            no_probe(&self.probe_cover) && self.covered_frequency == 0
        } else {
            &&& self.walk matches Some(w) && is_plan(&self.probe_cover, &w, tokens, pattern, sums)
            &&& self.covered_frequency == members_sum(
                sums,
                self.probe_cover.members(),
                shared_ids(sums, self.probe_cover.members()),
            )
        }
    }

    /// The normalized checks that the prefilter can execute. For an empty
    /// pattern this cover is empty, though every row is returned.
    pub fn probe_cover(&self) -> (r: &ProbeCover)
        ensures
            *r == self.probe_cover,
    {
        &self.probe_cover
    }

    /// Number of code positions whose token the probes cover.
    pub fn covered_frequency(&self) -> (r: u32)
        ensures
            r == self.covered_frequency,
    {
        self.covered_frequency
    }

    /// Number of code positions that the frequency index represents.
    pub fn total_frequency(&self) -> (r: u32)
        ensures
            r == self.total_frequency,
    {
        self.total_frequency
    }

    /// The share of code positions whose token the probes cover, as numerator
    /// and denominator: nothing out of one where the stream is empty.
    pub fn covered_fraction(&self) -> (r: (u32, u32))
        ensures
            self.total_frequency == 0 ==> r == (0u32, 1u32),
            self.total_frequency != 0 ==> r == (self.covered_frequency, self.total_frequency),
    {
        if self.total_frequency == 0 {
            (0, 1)
        } else {
            (self.covered_frequency, self.total_frequency)
        }
    }

    /// Comparisons that each vector of the code stream pays for this cover:
    /// one per point, two per range.
    pub fn comparison_cost(&self) -> (r: usize)
        ensures
            r == (if self.probe_cover.point_list().len() + 2 * self.probe_cover.range_list().len()
                <= usize::MAX {
                self.probe_cover.point_list().len() + 2 * self.probe_cover.range_list().len()
            } else {
                usize::MAX as nat
            }),
    {
        let ranges: usize = self.probe_cover.ranges().len();
        self.probe_cover.points().len().saturating_add(ranges.saturating_add(ranges))
    }

    /// The expected share of `row_count` rows that the scan will admit, as
    /// numerator and denominator: covered codes per row, and never more than
    /// all rows. An empty pattern admits every row, and an empty region has
    /// none.
    pub fn expected_candidate_row_fraction(&self, row_count: usize) -> (r: (u64, u64))
        ensures
            r == candidate_share(self.matches_all, self.covered_frequency as int, row_count as int),
            row_count == 0 ==> r == (0u64, 1u64),
            row_count > 0 && (self.matches_all || self.covered_frequency >= row_count) ==> r.0
                == r.1,
            row_count > 0 && !self.matches_all && self.covered_frequency <= row_count ==> r.0
                * row_count == self.covered_frequency * r.1,
            r.0 <= r.1,
            r.1 > 0,
    {
        if row_count == 0 {
            return (0, 1);
        }
        if self.matches_all {
            return (1, 1);
        }
        let covered: u64 = self.covered_frequency as u64;
        let rows: u64 = row_count as u64;
        if covered > rows {
            (1, 1)
        } else {
            (covered, rows)
        }
    }
}

/// Covered codes per row, at most one.
pub open spec fn candidate_share(matches_all: bool, covered: int, rows: int) -> (u64, u64) {
    if rows == 0 {
        (0u64, 1u64)
    } else if matches_all || covered > rows {
        (1u64, 1u64)
    } else {
        (covered as u64, rows as u64)
    }
}

/// Widest cover that the specialized kernels serve.
pub const MAX_SIMD_COMPARISONS: usize = 16;

/// Whether the default policy expects prefiltering to beat a bulk-decode
/// fallback over a region of `row_count` rows: at most
/// [`MAX_SIMD_COMPARISONS`] comparisons, and less than a tenth of the rows
/// sent to verification. A performance hint, not a correctness requirement.
pub fn prefilter_is_likely_profitable(analysis: &PrefilterAnalysis, row_count: usize) -> (r: bool)
    ensures
        r == (analysis.matches_all || (analysis.probe_cover.point_list().len() + 2
            * analysis.probe_cover.range_list().len() <= 16 && (row_count == 0 || 10
            * analysis.covered_frequency < row_count))),
{
    if analysis.matches_all {
        return true;
    }
    let (numerator, denominator) = analysis.expected_candidate_row_fraction(row_count);
    analysis.comparison_cost() <= MAX_SIMD_COMPARISONS && (numerator as u128) * 10
        < denominator as u128
}

/// Analyzes `pattern`: the sound probe cover that the minimum cut of its
/// alignment graph selects, and its frequency. Frequencies are advisory
/// weights: they affect the choice, and never remove members from the cover.
pub fn analyze_prefilter<S: TokenFrequencyIndexStorage>(
    pattern: &[u8],
    dict: DictView<'_>,
    frequencies: &TokenFrequencyIndex<S>,
    _row_count: usize,
) -> (r: PrefilterAnalysis)
    requires
        dict.wf(),
        conformant(dict.tokens()),
        pattern@.len() <= MAX_PATTERN_LEN,
        frequencies.wf(),
        dict.tokens().len() < frequencies.sums().len(),
    ensures
        r.of(dict.tokens(), pattern@, frequencies.sums()),
{
    let total: u32 = frequencies.total_frequency();
    if pattern.len() == 0 {
        return PrefilterAnalysis {
            probe_cover: ProbeCover::new(Vec::new(), Vec::new()),
            covered_frequency: 0,
            total_frequency: total,
            walk: None,
            matches_all: true,
        };
    }
    let view = frequencies.as_view();
    let Plan { cover, walk } = plan(dict, pattern, view);
    let covered: u32 = cover.frequency(view);
    PrefilterAnalysis {
        probe_cover: cover,
        covered_frequency: covered,
        total_frequency: total,
        walk: Some(walk),
        matches_all: false,
    }
}

/// Every row is greedily tokenized.
pub open spec fn rows_greedy(tokens: Seq<Seq<u8>>, codes: Seq<Token>, b: Seq<int>) -> bool {
    forall|r: int| 0 <= r < row_count(b) ==> is_greedy(tokens, #[trigger] row_codes(codes, b, r))
}

/// The rows that an analysis selects: all, or those that hold a covered code
/// which passes the walk.
pub open spec fn picks(analysis: &PrefilterAnalysis, codes: Seq<Token>, b: Seq<int>) -> spec_fn(
    int,
) -> bool {
    |r: int|
        analysis.matches_all || (!no_probe(&analysis.probe_cover) && exists|i: int|
            b[r] <= i < b[r + 1] && #[trigger] hits(&analysis.probe_cover, codes)(i) && passes(
                analysis.walk->0.model().edges,
                analysis.walk->0.model().ids,
                analysis.walk->0.model().tokens,
                analysis.walk->0.model().needle,
                row_codes(codes, b, r),
                i - b[r],
            ))
}

/// Executes `analysis` and appends the ascending rows that it selects. Over
/// greedily tokenized rows these are exactly the rows that contain the
/// pattern; see [`lemma_candidates_are_exact`].
pub fn prefilter_candidates<O: Offset>(
    codes: &[Token],
    row_offsets: &[O],
    dict: DictView<'_>,
    analysis: &PrefilterAnalysis,
    out: &mut Vec<usize>,
)
    requires
        dict.wf(),
        analysis.wf(dict.tokens()),
        !analysis.matches_all ==> delimits(bounds(row_offsets@), codes@.len() as int),
        !analysis.matches_all ==> codes_ok(codes@, dict.tokens().len()),
    ensures
        final(out)@ == old(out)@ + selected_rows(
            row_count(bounds(row_offsets@)),
            picks(analysis, codes@, bounds(row_offsets@)),
        ),
        forall|pattern: Seq<u8>, sums: Seq<u32>|
            (#[trigger] analysis.of(dict.tokens(), pattern, sums) && conformant(dict.tokens())
                && rows_greedy(dict.tokens(), codes@, bounds(row_offsets@))) ==> final(out)@ == old(out)@
                + selected_rows(
                row_count(bounds(row_offsets@)),
                row_contains(dict.tokens(), codes@, bounds(row_offsets@), pattern),
            ),
{
    let ghost b = bounds(row_offsets@);
    let ghost q = picks(analysis, codes@, b);
    proof {
        assert forall|pattern: Seq<u8>, sums: Seq<u32>|
            (#[trigger] analysis.of(dict.tokens(), pattern, sums) && conformant(dict.tokens())
                && rows_greedy(dict.tokens(), codes@, b)) implies selected_rows(row_count(b), q)
            == selected_rows(row_count(b), row_contains(dict.tokens(), codes@, b, pattern)) by {
            lemma_candidates_are_exact(analysis, dict.tokens(), pattern, sums, codes@, b);
        }
    }
    if analysis.matches_all {
        append_all_rows(row_offsets, out);
        proof {
            lemma_selected_agree(row_count(b), every_row(), q);
        }
        return;
    }
    let cover = analysis.probe_cover();
    if cover.is_empty() {
        proof {
            assert forall|r: int| 0 <= r < row_count(b) implies !#[trigger] q(r) by {}
            crate::rows::lemma_selected_skip(0, row_count(b), q);
            assert(out@ + selected_rows(row_count(b), q) =~= out@);
        }
        return;
    }
    let scan_plan = facts(
        codes,
        row_offsets,
        cover,
        analysis.covered_frequency as usize,
        analysis.total_frequency as usize,
    );
    match &analysis.walk {
        Some(walk) => {
            let check = Check::Walk { walk, dict, codes };
            execute_check(scan_plan, codes, row_offsets, cover, &check, out);
            proof {
                let p = hits(cover, codes@);
                let s = rows_with(b, check.passing(b, p));
                assert forall|r: int| 0 <= r < row_count(b) implies #[trigger] s(r) == q(r) by {
                    if s(r) {
                        let i = choose|i: int|
                            b[r] <= i < b[r + 1] && #[trigger] check.passing(b, p)(i);
                        let x = choose|x: int|
                            0 <= x < b.len() - 1 && b[x] <= i < b[x + 1] && #[trigger] check.lets(
                                b,
                                x,
                                i,
                            );
                        crate::search::prefilter::scan::sink::lemma_one_row(
                            b,
                            codes@.len() as int,
                            i,
                            x,
                            r,
                        );
                        assert(p(i));
                    }
                    if q(r) {
                        let i = choose|i: int|
                            b[r] <= i < b[r + 1] && #[trigger] hits(&analysis.probe_cover, codes@)(
                                i,
                            ) && passes(
                                walk.model().edges,
                                walk.model().ids,
                                walk.model().tokens,
                                walk.model().needle,
                                row_codes(codes@, b, r),
                                i - b[r],
                            );
                        assert(check.lets(b, r, i));
                        assert(check.passing(b, p)(i));
                    }
                }
                lemma_selected_agree(row_count(b), s, q);
            }
        },
        None => {},
    }
}

/// Over greedily tokenized rows, the rows that the analysis of a pattern
/// selects are exactly those that contain it.
pub proof fn lemma_candidates_are_exact(
    analysis: &PrefilterAnalysis,
    tokens: Seq<Seq<u8>>,
    pattern: Seq<u8>,
    sums: Seq<u32>,
    codes: Seq<Token>,
    b: Seq<int>,
)
    requires
        analysis.of(tokens, pattern, sums),
        conformant(tokens),
        pattern.len() > 0 ==> delimits(b, codes.len() as int),
        rows_greedy(tokens, codes, b),
    ensures
        selected_rows(row_count(b), picks(analysis, codes, b)) == selected_rows(
            row_count(b),
            row_contains(tokens, codes, b, pattern),
        ),
{
    let q = picks(analysis, codes, b);
    let s = row_contains(tokens, codes, b, pattern);
    assert forall|r: int| 0 <= r < row_count(b) implies #[trigger] q(r) == s(r) by {
        let row = row_codes(codes, b, r);
        if pattern.len() == 0 {
            lemma_contains_empty(decode(tokens, row), pattern);
        } else {
            let cover = &analysis.probe_cover;
            let walk = analysis.walk->0;
            assert(b[r] <= b[r + 1]);
            lemma_bound_in(b, codes.len() as int, r);
            lemma_bound_in(b, codes.len() as int, r + 1);
            assert(is_greedy(tokens, row));
            lemma_plan_is_exact(cover, &walk, tokens, pattern, sums, row);
            if q(r) {
                let i = choose|i: int|
                    b[r] <= i < b[r + 1] && #[trigger] hits(cover, codes)(i) && passes(
                        walk.model().edges,
                        walk.model().ids,
                        walk.model().tokens,
                        walk.model().needle,
                        row,
                        i - b[r],
                    );
                assert(row[i - b[r]] == codes[i]);
                assert(cover.has(row[i - b[r]] as int));
            }
            if s(r) {
                let h = choose|h: int|
                    0 <= h < row.len() && cover.has(#[trigger] row[h] as int) && passes(
                        walk.model().edges,
                        walk.model().ids,
                        tokens,
                        pattern,
                        row,
                        h,
                    );
                let i = b[r] + h;
                assert(codes[i] == row[h]);
                assert(hits(cover, codes)(i));
                assert(!no_probe(cover)) by {
                    if no_probe(cover) {
                        assert(!cover.has(row[h] as int));
                    }
                }
            }
        }
    }
    lemma_selected_agree(row_count(b), q, s);
}

/// A plan without a probe proves that no greedily tokenized row contains the
/// pattern.
pub proof fn lemma_empty_cover_matches_nothing(
    analysis: &PrefilterAnalysis,
    tokens: Seq<Seq<u8>>,
    pattern: Seq<u8>,
    sums: Seq<u32>,
    codes: Seq<Token>,
)
    requires
        analysis.of(tokens, pattern, sums),
        conformant(tokens),
        is_greedy(tokens, codes),
        pattern.len() > 0,
        no_probe(&analysis.probe_cover),
    ensures
        !contains(decode(tokens, codes), pattern),
{
    lemma_plan_is_exact(
        &analysis.probe_cover,
        &analysis.walk->0,
        tokens,
        pattern,
        sums,
        codes,
    );
}

/// The rows that hold a covered code.
pub open spec fn candidate_rows(cover: &ProbeCover, codes: Seq<Token>, b: Seq<int>) -> Seq<usize> {
    selected_rows(row_count(b), rows_with(b, hits(cover, codes)))
}

/// No row holds two covered codes.
pub open spec fn no_row_twice(members: Seq<bool>, codes: Seq<Token>, b: Seq<int>) -> bool {
    forall|r: int, i: int, j: int|
        0 <= r < b.len() - 1 && b[r] <= i < j < b[r + 1] ==> !(#[trigger] is_marked(
            members,
            codes,
            i,
        ) && #[trigger] is_marked(members, codes, j) && #[trigger] is_row(b, r))
}

/// Row `r` is one of the rows.
pub open spec fn is_row(b: Seq<int>, r: int) -> bool {
    0 <= r < b.len() - 1
}

/// Covered codes per row over-estimate the rows that a scan admits, and are
/// exact where no row holds two covered codes.
pub proof fn lemma_covered_codes_bound_candidates(
    cover: &ProbeCover,
    codes: Seq<Token>,
    b: Seq<int>,
)
    requires
        cover.wf(),
        delimits(b, codes.len() as int),
    ensures
        candidate_rows(cover, codes, b).len() <= marked_codes(
            cover.members(),
            codes,
            codes.len() as int,
        ),
        no_row_twice(cover.members(), codes, b) ==> candidate_rows(cover, codes, b).len()
            == marked_codes(cover.members(), codes, codes.len() as int),
{
    if b.len() > 0 {
        lemma_candidates_upto(cover, codes, b, row_count(b));
    }
}

proof fn lemma_candidates_upto(cover: &ProbeCover, codes: Seq<Token>, b: Seq<int>, r: nat)
    requires
        cover.wf(),
        delimits(b, codes.len() as int),
        r < b.len(),
    ensures
        selected_rows(r, rows_with(b, hits(cover, codes))).len() <= marked_codes(
            cover.members(),
            codes,
            b[r as int],
        ),
        no_row_twice(cover.members(), codes, b) ==> selected_rows(
            r,
            rows_with(b, hits(cover, codes)),
        ).len() == marked_codes(cover.members(), codes, b[r as int]),
    decreases r,
{
    let ms = cover.members();
    let p = hits(cover, codes);
    let q = rows_with(b, p);
    let n = codes.len() as int;
    if r > 0 {
        let x = r - 1;
        lemma_candidates_upto(cover, codes, b, x as nat);
        assert(b[x] <= b[x + 1]);
        lemma_bound_in(b, n, x);
        lemma_bound_in(b, n, x + 1);
        assert forall|i: int| 0 <= i < n implies #[trigger] p(i) == is_marked(ms, codes, i) by {
            assert(cover.has(codes[i] as int) <==> 0 <= codes[i] < ms.len() && ms[codes[i] as int]);
        }
        if q(x) {
            let i = choose|i: int| b[x] <= i < b[x + 1] && #[trigger] p(i);
            lemma_marked_once(ms, codes, b[x], b[x + 1], i);
        } else {
            assert forall|i: int| b[x] <= i < b[x + 1] implies !#[trigger] is_marked(
                ms,
                codes,
                i,
            ) by {
                assert(!p(i));
            }
            lemma_marked_at_most(ms, codes, b[x], b[x + 1]);
        }
        if no_row_twice(ms, codes, b) {
            assert(is_row(b, x));
            lemma_marked_at_most(ms, codes, b[x], b[x + 1]);
        }
    }
}

/// A share of candidate rows never shrinks with the codes that are covered, and
/// never exceeds all rows.
pub proof fn lemma_share_grows_with_coverage(covered: int, more: int, rows: int)
    requires
        0 <= covered <= more <= u32::MAX,
        0 <= rows <= usize::MAX,
    ensures
        candidate_share(false, covered, rows).0 * candidate_share(false, more, rows).1
            <= candidate_share(false, more, rows).0 * candidate_share(false, covered, rows).1,
        candidate_share(true, covered, rows) == (if rows == 0 {
            (0u64, 1u64)
        } else {
            (1u64, 1u64)
        }),
{
    let a = candidate_share(false, covered, rows);
    let b = candidate_share(false, more, rows);
    if rows > 0 && more <= rows {
        assert(covered * rows <= more * rows) by (nonlinear_arith)
            requires
                covered <= more,
                rows > 0,
        ;
    }
}

/// By frequencies that count a stream exactly, an analysis reports how many of
/// its codes the cover holds, none for the empty pattern, and of how many.
pub proof fn lemma_analysis_counts_covered_codes(
    analysis: &PrefilterAnalysis,
    tokens: Seq<Seq<u8>>,
    pattern: Seq<u8>,
    sums: Seq<u32>,
    codes: Seq<Token>,
)
    requires
        analysis.of(tokens, pattern, sums),
        tokens.len() < sums.len(),
        counts_exactly(sums, codes),
        sums[sums.len() - 1] == codes.len(),
    ensures
        analysis.total_frequency == codes.len(),
        analysis.matches_all <==> pattern.len() == 0,
        pattern.len() == 0 ==> analysis.covered_frequency == 0,
        pattern.len() > 0 ==> analysis.covered_frequency == set_int_range(
            0,
            codes.len() as int,
        ).filter(|i: int| analysis.probe_cover.has(codes[i] as int)).len(),
{
    if pattern.len() > 0 {
        lemma_frequency_counts_covered_codes(&analysis.probe_cover, sums, codes);
    }
}

/// An analysis that matches all selects every row; else a row is selected just
/// when it holds a covered code at which the walk passes, wherever in the row.
pub proof fn lemma_selection_means(
    analysis: &PrefilterAnalysis,
    codes: Seq<Token>,
    b: Seq<int>,
    r: int,
)
    requires
        0 <= b[r],
        b[r + 1] <= codes.len(),
    ensures
        analysis.matches_all ==> picks(analysis, codes, b)(r),
        !analysis.matches_all ==> (picks(analysis, codes, b)(r) <==> exists|i: int|
            b[r] <= i < b[r + 1] && analysis.probe_cover.has(#[trigger] codes[i] as int) && passes(
                analysis.walk->0.model().edges,
                analysis.walk->0.model().ids,
                analysis.walk->0.model().tokens,
                analysis.walk->0.model().needle,
                codes.subrange(b[r], b[r + 1]),
                i - b[r],
            )),
{
    let cover = &analysis.probe_cover;
    if !analysis.matches_all {
        if picks(analysis, codes, b)(r) {
            let i = choose|i: int|
                b[r] <= i < b[r + 1] && #[trigger] hits(cover, codes)(i) && passes(
                    analysis.walk->0.model().edges,
                    analysis.walk->0.model().ids,
                    analysis.walk->0.model().tokens,
                    analysis.walk->0.model().needle,
                    row_codes(codes, b, r),
                    i - b[r],
                );
            assert(cover.has(codes[i] as int));
        }
        if exists|i: int|
            b[r] <= i < b[r + 1] && cover.has(#[trigger] codes[i] as int) && passes(
                analysis.walk->0.model().edges,
                analysis.walk->0.model().ids,
                analysis.walk->0.model().tokens,
                analysis.walk->0.model().needle,
                codes.subrange(b[r], b[r + 1]),
                i - b[r],
            ) {
            let i = choose|i: int|
                b[r] <= i < b[r + 1] && cover.has(#[trigger] codes[i] as int) && passes(
                    analysis.walk->0.model().edges,
                    analysis.walk->0.model().ids,
                    analysis.walk->0.model().tokens,
                    analysis.walk->0.model().needle,
                    codes.subrange(b[r], b[r + 1]),
                    i - b[r],
                );
            assert(hits(cover, codes)(i));
        }
    }
}

/// Rows are greedily tokenized just when the codes of each are greedy.
pub proof fn lemma_greedy_rows_mean(tokens: Seq<Seq<u8>>, codes: Seq<Token>, b: Seq<int>, r: int)
    requires
        rows_greedy(tokens, codes, b),
        0 <= r < b.len() - 1,
    ensures
        is_greedy(tokens, codes.subrange(b[r], b[r + 1])),
{
    assert(row_codes(codes, b, r) == codes.subrange(b[r], b[r + 1]));
}

} // verus!
