//! The `contains` query over the dense token automaton.
//!
//! Two pieces cooperate: the automaton over codes, so that scanning a row is
//! one transition per code and matches may straddle token boundaries, and a
//! prefilter, a pass over the code stream that rules out most rows, so that
//! the automaton only runs on the few that are left.

use crate::bits::{any_bit_in_range, mask_bit, words_for};
use crate::dictionary::{codes_ok, decode, dict_ok, row_contains, tokens_of, Parts};
use crate::query::dfa::{TokenDfa, MAX_PATTERN_LEN};
use crate::query::prefilter::{is_prefilter_of, lemma_anchor_is_necessary, Prefilter, ScoreSource};
use crate::query::scan::lemma_row_codes_ok;
use crate::query::sparse::lemma_empty_pattern;
use crate::query::stats::CodeStats;
use crate::rows::{
    all_rows, bounds, count_rows, every_row, row_codes, row_count, rows_ok, selected, span, Offset,
};
use crate::text::contains;
use crate::types::Token;
use vstd::prelude::*;

verus! {

/// What a prefilter's scan looks like, for diagnostics.
#[derive(Debug, Clone, Copy, PartialEq, Eq)]
pub struct PrefilterInfo {
    /// How membership is tested.
    pub strategy: &'static str,
    /// Estimated number of codes that are candidates.
    pub hits: u128,
    /// Number of codes that the estimate is drawn from.
    pub total: u128,
}

/// A `contains` query compiled against one column's dictionary, and tuned on
/// its code stream. Reusable for any code stream over the same dictionary.
pub struct ContainsSearcher {
    /// `None` for the empty pattern, which matches every row.
    dfa: Option<TokenDfa>,
    /// `None` where no anchor was selective enough to pay for the pass.
    prefilter: Option<Prefilter>,
    tokens: Ghost<Seq<Seq<u8>>>,
    pattern: Ghost<Seq<u8>>,
}

/// The rows that hold a code that the prefilter admits.
pub open spec fn admitted_row(pf: &Prefilter, codes: Seq<Token>, b: Seq<int>) -> spec_fn(
    int,
) -> bool {
    |r: int| exists|i: int| b[r] <= i < b[r + 1] && pf.admits(#[trigger] codes[i] as int)
}

impl ContainsSearcher {
    /// The pattern that the searcher looks for.
    pub closed spec fn pattern(&self) -> Seq<u8> {
        self.pattern@
    }

    /// The tokens of the dictionary that it was compiled from.
    pub closed spec fn tokens(&self) -> Seq<Seq<u8>> {
        self.tokens@
    }

    /// The prefilter that the searcher runs, if any.
    pub closed spec fn filter(&self) -> Option<Prefilter> {
        self.prefilter
    }

    /// The searcher is that of its pattern and dictionary.
    pub closed spec fn wf(&self) -> bool {
        &&& match self.dfa {
            None => self.pattern@.len() == 0,
            Some(d) => d.wf() && d.pattern() == self.pattern@ && d.tokens() == self.tokens@
                && self.pattern@.len() > 0,
        }
        &&& match self.prefilter {
            None => true,
            Some(pf) => pf.wf(self.pattern@, self.tokens@),
        }
    }

    /// The rows that the prefilter leaves.
    pub open spec fn candidates(&self, codes: Seq<Token>, b: Seq<int>) -> spec_fn(int) -> bool {
        match self.filter() {
            None => every_row(),
            Some(pf) => admitted_row(&pf, codes, b),
        }
    }

    /// Compiles a searcher for `pattern` against a column. The code stream is
    /// only sampled, to choose the prefilter's anchor.
    pub fn compile(parts: Parts<'_>, pattern: &[u8]) -> (s: ContainsSearcher)
        requires
            parts.ok(),
            pattern@.len() <= MAX_PATTERN_LEN,
        ensures
            s.wf(),
            s.pattern() == pattern@,
            s.tokens() == parts.tokens(),
            is_prefilter_of(
                s.filter(),
                pattern@,
                parts.tokens(),
                &ScoreSource::SampledCodes(parts.codes),
            ),
    {
        let source = ScoreSource::SampledCodes(parts.codes);
        Self::compile_scored(parts.dict_bytes, parts.dict_offsets, pattern, &source)
    }

    /// [`compile`](Self::compile) against a dictionary and a stored frequency
    /// summary: no code stream is read.
    pub fn compile_with_stats(dict_bytes: &[u8], dict_offsets: &[u32], pattern: &[u8], stats: &CodeStats) -> (s: ContainsSearcher)
        requires
            dict_ok(dict_bytes@, dict_offsets@),
            stats.wf(),
            stats.magnitudes().len() == tokens_of(dict_bytes@, dict_offsets@).len(),
            pattern@.len() <= MAX_PATTERN_LEN,
        ensures
            s.wf(),
            s.pattern() == pattern@,
            s.tokens() == tokens_of(dict_bytes@, dict_offsets@),
            is_prefilter_of(
                s.filter(),
                pattern@,
                tokens_of(dict_bytes@, dict_offsets@),
                &ScoreSource::Stats(stats),
            ),
    {
        let source = ScoreSource::Stats(stats);
        Self::compile_scored(dict_bytes, dict_offsets, pattern, &source)
    }

    fn compile_scored(dict_bytes: &[u8], dict_offsets: &[u32], pattern: &[u8], source: &ScoreSource<'_>) -> (s: ContainsSearcher)
        requires
            dict_ok(dict_bytes@, dict_offsets@),
            source.fits(tokens_of(dict_bytes@, dict_offsets@).len()),
            pattern@.len() <= MAX_PATTERN_LEN,
        ensures
            s.wf(),
            s.pattern() == pattern@,
            s.tokens() == tokens_of(dict_bytes@, dict_offsets@),
            is_prefilter_of(s.filter(), pattern@, tokens_of(dict_bytes@, dict_offsets@), source),
    {
        let ghost toks = tokens_of(dict_bytes@, dict_offsets@);
        if pattern.len() == 0 {
            return ContainsSearcher {
                dfa: None,
                prefilter: None,
                tokens: Ghost(toks),
                pattern: Ghost(pattern@),
            };
        }
        let dfa = TokenDfa::build(pattern, dict_bytes, dict_offsets);
        let prefilter = Prefilter::build(pattern, dict_bytes, dict_offsets, source);
        ContainsSearcher {
            dfa: Some(dfa),
            prefilter,
            tokens: Ghost(toks),
            pattern: Ghost(pattern@),
        }
    }

    /// The prefilter drops no row that contains the pattern.
    pub proof fn lemma_no_false_negatives(&self, codes: Seq<Token>, b: Seq<int>, r: int)
        requires
            self.wf(),
            codes_ok(codes, self.tokens().len()),
            rows_ok(b, codes.len() as int),
            0 <= r < row_count(b),
            row_contains(self.tokens(), codes, b, self.pattern())(r),
        ensures
            self.candidates(codes, b)(r),
    {
        match self.prefilter {
            None => {},
            Some(pf) => {
                let row = row_codes(codes, b, r);
                lemma_row_codes_ok(codes, b, r, self.tokens@.len());
                if self.tokens@.len() > 0 {
                    pf.lemma_admits(self.pattern@, self.tokens@, 0);
                } else {
                    assert(row =~= Seq::<Token>::empty()) by {
                        if row.len() > 0 {
                            assert(row[0] < 0);
                        }
                    }
                }
                if row.len() == 0 {
                    assert(row =~= Seq::<Token>::empty());
                    assert(decode(self.tokens@, row).len() == 0);
                    let p = choose|p: int|
                        crate::text::occurs_at(decode(self.tokens@, row), self.pattern@, p);
                    assert(self.pattern@.len() == 0);
                    pf.lemma_anchor_exists(self.pattern@, self.tokens@);
                }
                let i = pf.anchor();
                lemma_anchor_is_necessary(self.pattern@, self.tokens@, row, i);
                let k = choose|k: int|
                    0 <= k < row.len() && crate::query::prefilter::covers_anchor(
                        self.tokens@[#[trigger] row[k] as int],
                        self.pattern@,
                        i,
                    );
                assert(row[k] < self.tokens@.len());
                pf.lemma_admits(self.pattern@, self.tokens@, row[k] as int);
                assert(codes[b[r] + k] == row[k]);
                assert(pf.admits(codes[b[r] + k] as int));
            },
        }
    }

    /// The rows whose decoded bytes contain the pattern.
    pub fn matching_rows<O: Offset>(&self, codes: &[Token], code_offsets: &[O]) -> (out: Vec<u64>)
        requires
            self.wf(),
            self.pattern().len() > 0 ==> codes_ok(codes@, self.tokens().len()),
            self.pattern().len() > 0 ==> rows_ok(
                bounds(code_offsets@),
                codes@.len() as int,
            ),
        ensures
            out@ == selected(
                row_count(bounds(code_offsets@)),
                row_contains(self.tokens(), codes@, bounds(code_offsets@), self.pattern()),
            ),
    {
        let ghost b = bounds(code_offsets@);
        match &self.dfa {
            None => {
                proof {
                    lemma_empty_pattern(self.pattern@, self.tokens@, codes@, b);
                }
                all_rows(code_offsets)
            },
            Some(dfa) => match &self.prefilter {
                None => Self::scan_rows(dfa, codes, code_offsets),
                Some(pf) => {
                    let mask = pf.candidate_mask(
                        codes,
                        Ghost(self.pattern@),
                        Ghost(self.tokens@),
                    );
                    let ghost pred = row_contains(self.tokens@, codes@, b, self.pattern@);
                    let n: usize = count_rows(code_offsets);
                    let len: usize = codes.len();
                    let mut table = dfa.transitions();
                    let mut out: Vec<u64> = Vec::new();
                    let mut r: usize = 0;
                    while r < n
                        invariant
                            r <= n,
                            n == row_count(b),
                            len == codes@.len(),
                            b == bounds(code_offsets@),
                            self.wf(),
                            self.prefilter == Some(*pf),
                            dfa.wf(),
                            dfa.pattern() == self.pattern@,
                            dfa.tokens() == self.tokens@,
                            table.agrees(dfa),
                            codes_ok(codes@, self.tokens@.len()),
                            rows_ok(b, codes@.len() as int),
                            mask@.len() == words_for(codes@.len() as int),
                            forall|i: int|
                                0 <= i < codes@.len() ==> #[trigger] mask_bit(mask@, i)
                                    == pf.admits(codes@[i] as int),
                            pred == row_contains(self.tokens@, codes@, b, self.pattern@),
                            out@ == selected(r as nat, pred),
                        decreases n - r,
                    {
                        let (a, z) = span(code_offsets, r, Ghost(codes@.len() as int));
                        proof {
                            lemma_row_codes_ok(codes@, b, r as int, self.tokens@.len());
                        }
                        let mut hit: bool = any_bit_in_range(mask.as_slice(), a, z);
                        if hit {
                            let row = &codes[a..z];
                            assert(row@ == row_codes(codes@, b, r as int));
                            hit = dfa.row_matches_with(row, &mut table);
                        } else {
                            proof {
                                if pred(r as int) {
                                    self.lemma_no_false_negatives(codes@, b, r as int);
                                    assert(admitted_row(pf, codes@, b)(r as int));
                                    let i = choose|i: int|
                                        b[r as int] <= i < b[r + 1] && pf.admits(
                                            #[trigger] codes@[i] as int,
                                        );
                                    assert(mask_bit(mask@, i));
                                }
                            }
                        }
                        assert(hit == pred(r as int));
                        if hit {
                            out.push(r as u64);
                        }
                        r = r + 1;
                    }
                    out
                },
            },
        }
    }

    /// [`matching_rows`](Self::matching_rows) with the prefilter disabled:
    /// every row is scanned by the automaton.
    pub fn matching_rows_unfiltered<O: Offset>(&self, codes: &[Token], code_offsets: &[O]) -> (out: Vec<
        u64,
    >)
        requires
            self.wf(),
            self.pattern().len() > 0 ==> codes_ok(codes@, self.tokens().len()),
            self.pattern().len() > 0 ==> rows_ok(
                bounds(code_offsets@),
                codes@.len() as int,
            ),
        ensures
            out@ == selected(
                row_count(bounds(code_offsets@)),
                row_contains(self.tokens(), codes@, bounds(code_offsets@), self.pattern()),
            ),
    {
        match &self.dfa {
            None => {
                proof {
                    lemma_empty_pattern(
                        self.pattern@,
                        self.tokens@,
                        codes@,
                        bounds(code_offsets@),
                    );
                }
                all_rows(code_offsets)
            },
            Some(dfa) => Self::scan_rows(dfa, codes, code_offsets),
        }
    }

    /// The rows that the prefilter cannot rule out, a superset of the matching
    /// ones. Without a prefilter every row is a candidate.
    pub fn candidate_rows<O: Offset>(&self, codes: &[Token], code_offsets: &[O]) -> (out: Vec<u64>)
        requires
            self.wf(),
            self.filter() is Some ==> codes_ok(codes@, self.tokens().len()),
            self.filter() is Some ==> rows_ok(
                bounds(code_offsets@),
                codes@.len() as int,
            ),
        ensures
            out@ == selected(
                row_count(bounds(code_offsets@)),
                self.candidates(codes@, bounds(code_offsets@)),
            ),
    {
        let ghost b = bounds(code_offsets@);
        match &self.prefilter {
            None => all_rows(code_offsets),
            Some(pf) => {
                let mask = pf.candidate_mask(codes, Ghost(self.pattern@), Ghost(self.tokens@));
                let ghost pred = admitted_row(pf, codes@, b);
                let n: usize = count_rows(code_offsets);
                let len: usize = codes.len();
                let mut out: Vec<u64> = Vec::new();
                let mut r: usize = 0;
                while r < n
                    invariant
                        r <= n,
                        n == row_count(b),
                        len == codes@.len(),
                        b == bounds(code_offsets@),
                        rows_ok(b, codes@.len() as int),
                        mask@.len() == words_for(codes@.len() as int),
                        forall|i: int|
                            0 <= i < codes@.len() ==> #[trigger] mask_bit(mask@, i) == pf.admits(
                                codes@[i] as int,
                            ),
                        pred == admitted_row(pf, codes@, b),
                        out@ == selected(r as nat, pred),
                    decreases n - r,
                {
                    let (a, z) = span(code_offsets, r, Ghost(codes@.len() as int));
                    let hit: bool = any_bit_in_range(mask.as_slice(), a, z);
                    proof {
                        if hit {
                            let i = choose|i: int| a <= i < z && #[trigger] mask_bit(mask@, i);
                            assert(pf.admits(codes@[i] as int));
                            assert(pred(r as int));
                        }
                        if pred(r as int) {
                            let i = choose|i: int|
                                b[r as int] <= i < b[r + 1] && pf.admits(
                                    #[trigger] codes@[i] as int,
                                );
                            assert(mask_bit(mask@, i));
                        }
                    }
                    if hit {
                        out.push(r as u64);
                    }
                    r = r + 1;
                }
                out
            },
        }
    }

    /// Prefilter diagnostics, or `None` when the searcher runs unfiltered.
    pub fn prefilter_info(&self) -> (r: Option<PrefilterInfo>)
        ensures
            r is None <==> self.filter() is None,
            r matches Some(i) ==> (i.hits, i.total) == self.filter()->0.rate() && i.strategy@ == (
            if self.filter()->0.by_intervals() {
                "simd-intervals"@
            } else {
                "bitmap"@
            }),
    {
        match &self.prefilter {
            None => None,
            Some(pf) => {
                let (hits, total) = pf.expected_hit_rate();
                Some(PrefilterInfo { strategy: pf.strategy(), hits, total })
            },
        }
    }

    /// The rows for which the automaton accepts.
    fn scan_rows<O: Offset>(dfa: &TokenDfa, codes: &[Token], code_offsets: &[O]) -> (out: Vec<u64>)
        requires
            dfa.wf(),
            codes_ok(codes@, dfa.tokens().len()),
            rows_ok(bounds(code_offsets@), codes@.len() as int),
        ensures
            out@ == selected(
                row_count(bounds(code_offsets@)),
                row_contains(dfa.tokens(), codes@, bounds(code_offsets@), dfa.pattern()),
            ),
    {
        let ghost b = bounds(code_offsets@);
        let ghost pred = row_contains(dfa.tokens(), codes@, b, dfa.pattern());
        let n: usize = count_rows(code_offsets);
        let len: usize = codes.len();
        let mut table = dfa.transitions();
        let mut out: Vec<u64> = Vec::new();
        let mut r: usize = 0;
        while r < n
            invariant
                r <= n,
                n == row_count(b),
                len == codes@.len(),
                b == bounds(code_offsets@),
                dfa.wf(),
                table.agrees(dfa),
                codes_ok(codes@, dfa.tokens().len()),
                rows_ok(b, codes@.len() as int),
                pred == row_contains(dfa.tokens(), codes@, b, dfa.pattern()),
                out@ == selected(r as nat, pred),
            decreases n - r,
        {
            let (a, z) = span(code_offsets, r, Ghost(codes@.len() as int));
            proof {
                lemma_row_codes_ok(codes@, b, r as int, dfa.tokens().len());
            }
            let row = &codes[a..z];
            assert(row@ == row_codes(codes@, b, r as int));
            let hit: bool = dfa.row_matches_with(row, &mut table);
            assert(hit == pred(r as int));
            if hit {
                out.push(r as u64);
            }
            r = r + 1;
        }
        out
    }
}

impl ContainsSearcher {
    /// Without a prefilter every row is a candidate; with one, the rows that
    /// hold a code which it admits, wherever in the row.
    pub proof fn lemma_candidates_hold_admitted(&self, codes: Seq<Token>, b: Seq<int>, r: int)
        ensures
            self.filter() is None ==> self.candidates(codes, b)(r),
            self.filter() matches Some(f) ==> (self.candidates(codes, b)(r) <==> exists|i: int|
                b[r] <= i < b[r + 1] && f.admits(#[trigger] codes[i] as int)),
    {
    }
}

} // verus!
