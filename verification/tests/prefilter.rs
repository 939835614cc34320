//! The prefilter that cuts one graph of all alignments: covers, walks, rows.

use onpair::dictionary::DictView;
use onpair::search::index::{
    build_token_frequency_index, BorrowedTokenFrequencyIndexStorage as BorrowedFrequencies,
    TokenFrequencyIndex, TokenFrequencyIndexStorage,
};
use onpair::search::kmp::KmpAutomaton;
use onpair::search::prefilter::analysis::{
    analyze_prefilter, prefilter_candidates, prefilter_is_likely_profitable, PrefilterAnalysis,
};
use onpair::search::prefilter::cover::ProbeCover;
use onpair::search::prefilter::graph::{
    build_alignment_graph, contained_tokens, first_tokens, AlignmentGraph, Edge, Nodes, ProbeSet,
    SET_CAP,
};
use onpair::search::prefilter::mincut::min_cut;
use onpair::search::prefilter::plan::plan;
use onpair::search::tokenize::tokenize;
use onpair::types::{Token, TokenRange, MAX_TOKEN_SIZE};
use std::collections::{BTreeMap, BTreeSet};

/// A column whose dictionary holds the single bytes and the substrings of its
/// rows that weigh most, in order.
struct Column {
    bytes: Vec<u8>,
    offsets: Vec<u32>,
    codes: Vec<Token>,
    row_offsets: Vec<u32>,
    rows: Vec<Vec<u8>>,
}

impl Column {
    fn dict(&self) -> DictView<'_> {
        DictView::new(&self.bytes, &self.offsets)
    }

    fn num_rows(&self) -> usize {
        self.rows.len()
    }

    fn row_codes(&self, row: usize) -> &[Token] {
        &self.codes[self.row_offsets[row] as usize..self.row_offsets[row + 1] as usize]
    }

    /// The bytes that a row's codes stand for.
    fn decode_row(&self, row: usize) -> Vec<u8> {
        self.row_codes(row)
            .iter()
            .flat_map(|&code| self.dict().token(code).to_vec())
            .collect()
    }
}

fn column_of(tokens: BTreeSet<Vec<u8>>, rows: &[&[u8]]) -> Column {
    let mut bytes = Vec::new();
    let mut offsets = vec![0u32];
    for token in &tokens {
        bytes.extend_from_slice(token);
        offsets.push(bytes.len() as u32);
    }
    let mut codes = Vec::new();
    let mut row_offsets = vec![0u32];
    for row in rows {
        codes.extend(tokenize(row, DictView::new(&bytes, &offsets)));
        row_offsets.push(codes.len() as u32);
    }
    Column {
        bytes,
        offsets,
        codes,
        row_offsets,
        rows: rows.iter().map(|row| row.to_vec()).collect(),
    }
}

fn compress_rows(rows: &[&[u8]]) -> Column {
    let mut weights: BTreeMap<Vec<u8>, usize> = BTreeMap::new();
    for row in rows {
        for len in 2..=16usize {
            for window in row.windows(len) {
                *weights.entry(window.to_vec()).or_insert(0) += len;
            }
        }
    }
    let mut ranked: Vec<(usize, Vec<u8>)> = weights
        .into_iter()
        .filter(|(token, weight)| *weight >= 2 * token.len())
        .map(|(token, weight)| (weight, token))
        .collect();
    ranked.sort_by(|a, b| b.cmp(a));
    let mut tokens: BTreeSet<Vec<u8>> = (0..=255u8).map(|b| vec![b]).collect();
    for (_, token) in ranked.into_iter().take(400) {
        tokens.insert(token);
    }
    let column = column_of(tokens, rows);
    for row in 0..column.num_rows() {
        assert_eq!(column.decode_row(row), column.rows[row]);
    }
    column
}

fn byte_contains(hay: &[u8], needle: &[u8]) -> bool {
    needle.is_empty() || hay.windows(needle.len()).any(|w| w == needle)
}

/// The rows that contain a pattern, by their bytes.
fn matching(column: &Column, pattern: &[u8]) -> Vec<usize> {
    (0..column.num_rows())
        .filter(|&row| byte_contains(&column.rows[row], pattern))
        .collect()
}

fn user_strings(count: usize) -> Vec<String> {
    (0..count)
        .map(|i| {
            format!(
                "https://www.example.com/user/{}/page{}",
                i * 7919 % 1000,
                i % 9
            )
        })
        .collect()
}

fn binary_strings(count: usize, len: usize, seed: u64) -> Vec<Vec<u8>> {
    let mut state = seed;
    (0..count)
        .map(|_| {
            (0..len)
                .map(|_| {
                    state = state
                        .wrapping_mul(6364136223846793005)
                        .wrapping_add(1442695040888963407);
                    (state >> 33) as u8
                })
                .collect()
        })
        .collect()
}

fn candidates<S: TokenFrequencyIndexStorage>(
    column: &Column,
    frequencies: &TokenFrequencyIndex<S>,
    pattern: &[u8],
) -> Vec<usize> {
    let mut out = Vec::new();
    let analysis = analyze_prefilter(pattern, column.dict(), frequencies, column.num_rows());
    prefilter_candidates(
        &column.codes,
        &column.row_offsets,
        column.dict(),
        &analysis,
        &mut out,
    );
    out
}

/// The obvious way to find the tokens containing `needle` without starting
/// with it: compare every window of every token.
fn contained_tokens_by_scan(dict: DictView<'_>, needle: &[u8]) -> Vec<Token> {
    (0..dict.num_tokens() as Token)
        .filter(|&id| {
            let token = dict.token(id);
            !token.starts_with(needle)
                && token.len() >= needle.len()
                && token.windows(needle.len()).any(|w| w == needle)
        })
        .collect()
}

/// The tokens that hold the needle further in.
fn contained_further_in(dict: DictView<'_>, needle: &[u8]) -> Vec<Token> {
    contained_tokens(dict, needle)
        .into_iter()
        .filter(|&id| !dict.token(id).starts_with(needle))
        .collect()
}

/// The obvious way to find the first-token sets: try every alignment against
/// every token.
fn first_token_sets_by_scan(dict: DictView<'_>, needle: &[u8]) -> (Vec<usize>, Vec<Token>) {
    let mut count = vec![0usize; MAX_TOKEN_SIZE];
    let mut ids = vec![0 as Token; MAX_TOKEN_SIZE * SET_CAP];
    for id in 0..dict.num_tokens() as Token {
        let token = dict.token(id);
        for k in 1..needle.len().min(MAX_TOKEN_SIZE) {
            if k <= token.len() && token[token.len() - k..] == needle[..k] {
                if count[k] < SET_CAP {
                    ids[k * SET_CAP + count[k]] = id;
                }
                count[k] += 1;
            }
        }
    }
    (count, ids)
}

fn cuttable(edge: &Edge) -> bool {
    edge.cost().is_some()
}

/// Whether the sink is reachable from the source without taking an edge that
/// `blocked` rejects.
fn sink_reachable_avoiding(graph: &AlignmentGraph, blocked: impl Fn(usize) -> bool) -> bool {
    let mut adjacency = vec![Vec::new(); graph.nodes.count()];
    for (index, edge) in graph.edges.iter().enumerate() {
        adjacency[edge.from as usize].push(index);
    }
    let mut seen = vec![false; graph.nodes.count()];
    let mut stack = vec![graph.nodes.source() as usize];
    seen[graph.nodes.source() as usize] = true;
    while let Some(node) = stack.pop() {
        if node == graph.nodes.sink() as usize {
            return true;
        }
        for &index in &adjacency[node] {
            let next = graph.edges[index].to as usize;
            if !seen[next] && !blocked(index) {
                seen[next] = true;
                stack.push(next);
            }
        }
    }
    false
}

/// The cover of some edges' probes alone.
fn edge_cover(graph: &AlignmentGraph, cut: &[u32]) -> ProbeCover {
    ProbeCover::from_membership(graph.membership(cut))
}

/// The cover of some edges' probes and of the mandatory tokens.
fn whole_cover(graph: &AlignmentGraph, cut: &[u32]) -> ProbeCover {
    let mut members = graph.membership(cut);
    for &id in &graph.contained {
        members[id as usize] = true;
    }
    ProbeCover::from_membership(members)
}

fn covers_every_match(column: &Column, cover: &ProbeCover, want: &[usize]) -> bool {
    want.iter()
        .all(|&row| column.row_codes(row).iter().any(|&c| cover.contains(c)))
}

/// No path escapes unprobed, every probe's weight is the work it would cost,
/// the probes cover every matching row, states at equal offsets are shared,
/// and the minimum cut over all of that is both sound and, while the probe set
/// is small enough to enumerate, optimal.
fn check_graph(column: &Column, frequencies: &TokenFrequencyIndex, pat: &[u8], want: &[usize]) {
    let graph = build_alignment_graph(column.dict(), pat, frequencies.as_view());
    let probes: Vec<u32> = (0..graph.edges.len() as u32)
        .filter(|&index| cuttable(&graph.edges[index as usize]))
        .collect();

    assert!(
        !sink_reachable_avoiding(&graph, |index| cuttable(&graph.edges[index])),
        "a source-to-sink path carries no probe for {pat:?}"
    );

    for &index in &probes {
        let covered = edge_cover(&graph, &[index]);
        let matched = column
            .codes
            .iter()
            .filter(|&&c| covered.contains(c))
            .count();
        assert_eq!(
            graph.edges[index as usize].weight as usize, matched,
            "probe {index} misreports its term frequency for {pat:?}"
        );
    }

    assert!(
        covers_every_match(column, &whole_cover(&graph, &probes), want),
        "some row matching {pat:?} holds no probe token at all"
    );

    assert!(
        graph.edges.len() <= 2 * pat.len() + 16,
        "{} edges for a {}-byte needle: states are not being merged",
        graph.edges.len(),
        pat.len()
    );

    let cut = min_cut(&graph.edges, graph.nodes);
    assert!(
        !sink_reachable_avoiding(&graph, |index| cut.contains(&(index as u32))),
        "the minimum cut leaves a source-to-sink path open for {pat:?}"
    );
    assert!(
        covers_every_match(column, &whole_cover(&graph, &cut), want),
        "the minimum cut misses a row matching {pat:?}"
    );

    let weight = |selection: &[u32]| -> u64 {
        selection
            .iter()
            .map(|&index| u64::from(graph.edges[index as usize].weight))
            .sum()
    };
    if probes.len() <= 12 {
        let best = weight(&cut);
        for mask in 0u32..(1 << probes.len()) {
            let subset: Vec<u32> = probes
                .iter()
                .enumerate()
                .filter(|(bit, _)| (mask >> bit) & 1 == 1)
                .map(|(_, &index)| index)
                .collect();
            if weight(&subset) < best {
                assert!(
                    sink_reachable_avoiding(&graph, |index| subset.contains(&(index as u32))),
                    "a cover of weight {} beats the minimum cut's {best} for {pat:?}",
                    weight(&subset)
                );
            }
        }
    }
}

fn check(rows: &[&[u8]], patterns: &[&[u8]]) {
    let column = compress_rows(rows);
    let frequencies =
        build_token_frequency_index(&column.codes, column.dict().num_tokens()).unwrap();
    for &pat in patterns {
        let want = matching(&column, pat);
        if !pat.is_empty() {
            check_graph(&column, &frequencies, pat, &want);
            assert_eq!(
                contained_further_in(column.dict(), pat),
                contained_tokens_by_scan(column.dict(), pat),
                "the payload sweep and a per-token scan disagree for {pat:?}"
            );
            let first = first_tokens(column.dict(), pat);
            assert_eq!(
                (first.count, first.ids),
                first_token_sets_by_scan(column.dict(), pat),
                "the table pass and a per-token scan disagree for {pat:?}"
            );
        }

        assert_eq!(
            candidates(&column, &frequencies, pat),
            want,
            "incorrect result for {pat:?}"
        );

        if pat.len() <= 255 {
            let table = KmpAutomaton::new(pat, column.dict());
            let by_kmp: Vec<_> = (0..column.num_rows())
                .filter(|&row| table.matches(column.row_codes(row)))
                .collect();
            assert_eq!(by_kmp, want, "the KMP oracle disagrees for {pat:?}");
        }
    }
}

/// The sweep searches the flat payload, where a match can span two tokens and
/// must be rejected; rejecting it must not skip past a real match inside the
/// token it ran into.
#[test]
fn contained_tokens_survive_a_match_spanning_two_tokens() {
    let rows: Vec<&[u8]> = vec![
        b"aaaaaaaaaaaaaaaa",
        b"aaaaaaaa aaaaaaaa",
        b"xaaaaay",
        b"aaa",
        b"aa",
        b"zzaazz",
    ];
    let column = compress_rows(&rows);
    let dict = column.dict();
    let ntok = dict.num_tokens();

    // Without the adjacency the test would pass vacuously.
    assert!(
        (0..ntok as Token).any(|id| dict.token(id) == b"aa"),
        "corpus did not train the `aa` token this test is about"
    );

    for pat in [b"aa".as_slice(), b"aaa", b"aaaa"] {
        assert_eq!(
            contained_further_in(dict, pat),
            contained_tokens_by_scan(dict, pat),
            "contained tokens for {pat:?} disagree with a per-token scan"
        );
        let all: Vec<Token> = (0..ntok as Token)
            .filter(|&id| byte_contains(dict.token(id), pat))
            .collect();
        assert_eq!(contained_tokens(dict, pat), all);
    }
}

/// A needle whose greedy first token is a full [`MAX_TOKEN_SIZE`], with more
/// needle left over.
#[test]
fn boundary_layout_with_a_maximal_first_token_is_covered() {
    let rows: Vec<Vec<u8>> = (0..40)
        .map(|i| {
            let mut row = b"abcdefghijklmnop".repeat(4);
            row.extend_from_slice(format!("{i:03}").as_bytes());
            row
        })
        .collect();
    let refs: Vec<&[u8]> = rows.iter().map(|r| r.as_slice()).collect();
    let needle = b"klmnopabcdefghijklmnop";

    // Without a maximal first token the test would pass vacuously.
    let column = compress_rows(&refs);
    let dict = column.dict();
    assert!(
        (0..dict.num_tokens() as Token).any(|id| dict.token(id) == &needle[..MAX_TOKEN_SIZE]),
        "corpus did not train the {MAX_TOKEN_SIZE}-byte first token this test is about"
    );

    check(&refs, &[needle.as_slice()]);
}

#[test]
fn sound_on_edge_cases() {
    let rows: &[&[u8]] = &[
        b"",
        b"hello world",
        b"world peace",
        b"abcabcabc",
        b"xabcabcy",
        b"aaaaab",
        b"aabaab",
    ];
    check(
        rows,
        &[
            b"", b"hello", b"world", b"o w", b"bca", b"bcabca", b"aa", b"aab", b"aabaa", b"absent",
        ],
    );
}

/// Empty rows have no token that a probe scan can find. The all-rows answer
/// must hold them too, and append.
#[test]
fn empty_pattern_appends_all_rows() {
    let cases: &[&[&[u8]]] = &[&[b"", b"alpha", b"", b"beta", b""], &[b"", b""], &[]];
    for &rows in cases {
        let column = compress_rows(rows);
        let frequencies =
            build_token_frequency_index(&column.codes, column.dict().num_tokens()).unwrap();
        let analysis = analyze_prefilter(b"", column.dict(), &frequencies, column.num_rows());
        assert!(analysis.probe_cover().is_empty());
        assert_eq!(analysis.comparison_cost(), 0);
        assert_eq!(analysis.covered_frequency(), 0);
        assert_eq!(analysis.covered_fraction().0, 0);
        assert_eq!(analysis.total_frequency(), column.codes.len() as u32);
        assert_eq!(
            analysis.expected_candidate_row_fraction(column.num_rows()),
            if rows.is_empty() { (0, 1) } else { (1, 1) }
        );
        assert!(prefilter_is_likely_profitable(&analysis, column.num_rows()));

        let expected: Vec<_> = (0..rows.len()).collect();
        let mut got = vec![usize::MAX];
        prefilter_candidates(
            &column.codes,
            &column.row_offsets,
            column.dict(),
            &analysis,
            &mut got,
        );
        assert_eq!(got[0], usize::MAX);
        assert_eq!(got[1..], expected);
    }
}

/// A non-empty pattern whose cover came out empty proves that no row matches,
/// and must not be confused with the all-rows answer.
#[test]
fn empty_probe_cover_still_appends_nothing() {
    let analysis = PrefilterAnalysis {
        probe_cover: ProbeCover::new(Vec::new(), Vec::new()),
        covered_frequency: 0,
        total_frequency: 1,
        walk: None,
        matches_all: false,
    };
    assert_eq!(analysis.expected_candidate_row_fraction(3).0, 0);
    assert!(prefilter_is_likely_profitable(&analysis, 3));

    let column = compress_rows(&[b"a"]);
    let mut rows = vec![usize::MAX];
    prefilter_candidates(
        &[0],
        &[0u32, 0, 1, 1],
        column.dict(),
        &analysis,
        &mut rows,
    );
    assert_eq!(rows, vec![usize::MAX]);
}

#[test]
fn tests_matches_brute_force_on_repetitive_corpus() {
    let corpus: Vec<Vec<u8>> = user_strings(50)
        .into_iter()
        .map(String::into_bytes)
        .collect();
    let rows: Vec<&[u8]> = corpus.iter().map(Vec::as_slice).collect();
    check(
        &rows,
        &[
            b"example",
            b"https",
            b"://",
            b".com",
            b"/page",
            b"ftp",
            b"zzz",
            b"w",
            b"https://www.example.com/",
        ],
    );
}

#[test]
fn tests_matches_brute_force_on_binary_corpus() {
    let corpus = binary_strings(40, 24, 11);
    let rows: Vec<&[u8]> = corpus.iter().map(Vec::as_slice).collect();
    let patterns: &[&[u8]] = &[b"", b"\x00", b"\xff", b"\x00\x01", &[7u8], &[200u8, 201]];
    check(&rows, patterns);
}

/// Overlapping occurrences through a trained dictionary and the whole scan.
#[test]
fn overlapping_occurrences_through_the_scan() {
    let rows: &[&[u8]] = &[
        b"appappapple",
        b"appapple pie",
        b"an appappappapple",
        b"appappaple",
        b"apple",
        b"aabaaabaa",
        b"aaaa",
        b"abababab",
        b"ababx abab",
    ];
    check(
        rows,
        &[b"appapple", b"aaa", b"abab", b"ababab", b"apple", b"papp"],
    );
}

#[test]
fn prefilter_accepts_pattern_over_255_bytes() {
    let long = vec![b'a'; 300];
    let short = vec![b'a'; 10];
    let rows: &[&[u8]] = &[&long, b"abc", &short];
    let column = compress_rows(rows);
    let frequencies =
        build_token_frequency_index(&column.codes, column.dict().num_tokens()).unwrap();
    let pat = vec![b'a'; 256];
    assert_eq!(candidates(&column, &frequencies, &pat), vec![0]);
}

#[test]
fn analysis_reports_normalized_cover_frequency() {
    let column = compress_rows(&[b"alpha", b"beta"]);
    let frequencies =
        build_token_frequency_index(&column.codes, column.dict().num_tokens()).unwrap();
    let analysis = analyze_prefilter(b"a", column.dict(), &frequencies, column.num_rows());
    let cover = analysis.probe_cover();
    let expected: u32 = cover
        .points()
        .iter()
        .map(|&token| frequencies.frequency(token))
        .chain(
            cover
                .ranges()
                .iter()
                .map(|&range| frequencies.range_frequency(range)),
        )
        .sum();

    assert_eq!(analysis.covered_frequency(), expected);
    assert_eq!(
        analysis.covered_fraction(),
        (expected, column.codes.len() as u32)
    );
    let counted = column.codes.iter().filter(|&&c| cover.contains(c)).count();
    assert_eq!(expected as usize, counted);
}

#[test]
fn external_storage_matches_owned_prefilter_analysis_and_results() {
    let column = compress_rows(&[b"alpha beta", b"beta gamma", b"alphabet soup", b"delta"]);
    let ntok = column.dict().num_tokens();
    let owned = build_token_frequency_index(&column.codes, ntok).unwrap();
    let cumulative = owned.storage().cumulative().to_vec();
    let external =
        TokenFrequencyIndex::validate(BorrowedFrequencies(&cumulative), &column.codes, ntok)
            .unwrap();

    let pattern = b"alpha";
    let owned_analysis = analyze_prefilter(pattern, column.dict(), &owned, column.num_rows());
    let external_analysis = analyze_prefilter(pattern, column.dict(), &external, column.num_rows());
    assert_eq!(
        external_analysis.probe_cover().points(),
        owned_analysis.probe_cover().points()
    );
    assert_eq!(
        external_analysis.probe_cover().ranges(),
        owned_analysis.probe_cover().ranges()
    );
    assert_eq!(
        external_analysis.covered_frequency(),
        owned_analysis.covered_frequency()
    );
    assert_eq!(
        candidates(&column, &external, pattern),
        candidates(&column, &owned, pattern)
    );
}

/// Overlapping probe runs are merged into maximal runs.
#[test]
fn cover_probes_the_maximal_runs_of_its_membership() {
    let run = |begin, last| TokenRange { begin, last };
    let pf = ProbeCover::from_runs(vec![
        run(7, 8),
        run(0, 0),
        run(3, 3),
        run(6, 7),
        run(1, 1),
        run(8, 8),
    ]);

    assert_eq!(pf.points(), vec![3]);
    assert_eq!(
        pf.ranges(),
        vec![
            TokenRange { begin: 0, last: 1 },
            TokenRange { begin: 6, last: 8 },
        ]
    );
    let members = [true, true, false, true, false, false, true, true, true];
    for (code, &member) in members.iter().enumerate() {
        assert_eq!(pf.contains(code as Token), member, "membership at {code}");
    }
    assert!(ProbeCover::from_runs(Vec::new()).is_empty());
}

/// An index that falsely reports every used token as absent may only influence
/// planning cost; its zeroes cannot delete selected members.
#[test]
fn false_zero_frequencies_cannot_hide_a_true_match() {
    let rows: &[&[u8]] = &[b"alpha beta", b"gamma", b"alphabet soup", b"delta"];
    let column = compress_rows(rows);
    assert!(column.codes.iter().all(|&code| code != 0));
    let ntok = column.dict().num_tokens();

    // Attribute the entire code count to token 0, which this column never uses.
    let mut cumulative = vec![column.codes.len() as u32; ntok + 1];
    cumulative[0] = 0;
    let frequencies = TokenFrequencyIndex::validate_safety(
        BorrowedFrequencies(&cumulative),
        ntok,
        column.codes.len(),
    )
    .unwrap();
    let pattern = b"alpha";
    let analysis = analyze_prefilter(pattern, column.dict(), &frequencies, column.num_rows());
    assert!(!analysis.probe_cover().is_empty());
    assert_eq!(analysis.covered_frequency(), 0);

    let expected = matching(&column, pattern);
    let got = candidates(&column, &frequencies, pattern);
    assert!(expected.iter().all(|row| got.contains(row)));
}

/// The split scan verifies its hits, so the rows come out exact.
#[test]
fn split_scan_returns_exact_rows() {
    let corpus: Vec<Vec<u8>> = user_strings(200)
        .into_iter()
        .map(String::into_bytes)
        .collect();
    let rows: Vec<&[u8]> = corpus.iter().map(Vec::as_slice).collect();
    let column = compress_rows(&rows);
    let frequencies =
        build_token_frequency_index(&column.codes, column.dict().num_tokens()).unwrap();
    for pat in [b"example".as_slice(), b".com", b"://", b"page", b"user"] {
        assert_eq!(
            candidates(&column, &frequencies, pat),
            matching(&column, pat),
            "{pat:?}"
        );
    }
}

#[test]
fn profitability_is_a_tenth_of_the_rows_and_sixteen_comparisons() {
    let analysis = |points: usize, covered: u32| PrefilterAnalysis {
        probe_cover: ProbeCover::new((0..points as Token).map(|id| 2 * id).collect(), Vec::new()),
        covered_frequency: covered,
        total_frequency: 1_000,
        walk: None,
        matches_all: false,
    };
    assert!(prefilter_is_likely_profitable(&analysis(16, 99), 1_000));
    assert!(!prefilter_is_likely_profitable(&analysis(16, 100), 1_000));
    assert!(!prefilter_is_likely_profitable(&analysis(17, 0), 1_000));
    assert!(prefilter_is_likely_profitable(&analysis(1, 7), 0));
    assert_eq!(
        analysis(1, 50).expected_candidate_row_fraction(100),
        (50, 100)
    );
    assert_eq!(
        analysis(1, 500).expected_candidate_row_fraction(100),
        (1, 1)
    );
}

// Cuts.

fn synthetic(from: u32, to: u32, cost: Option<u32>) -> Edge {
    match cost {
        Some(weight) => Edge {
            from,
            to,
            probe: ProbeSet::Point(0),
            weight,
        },
        None => Edge {
            from,
            to,
            probe: ProbeSet::TooBigSet,
            weight: 0,
        },
    }
}

/// The endpoints of a cut.
fn steps(edges: &[Edge], cut: &[u32]) -> Vec<(u32, u32)> {
    cut.iter()
        .map(|&index| (edges[index as usize].from, edges[index as usize].to))
        .collect()
}

/// Two alignments converging on one shared suffix are cut once at the join for
/// 6, not once each for 4 + 4.
#[test]
fn shared_suffix_beats_two_local_choices() {
    // 0 -> 1 -(4)-> 3 -(6)-> 4  and  0 -> 2 -(4)-> 3 -(6)-> 4
    let edges = [
        synthetic(0, 1, None),
        synthetic(0, 2, None),
        synthetic(1, 3, Some(4)),
        synthetic(2, 3, Some(4)),
        synthetic(3, 4, Some(6)),
    ];
    assert_eq!(steps(&edges, &min_cut(&edges, Nodes::new(4))), vec![(3, 4)]);
}

/// Two disjoint paths have to be cut on both, and a zero-weight probe is
/// always worth taking.
#[test]
fn disjoint_paths_are_cut_separately() {
    // 0 -> 1 -(5)-> 4  and  0 -> 2 -(9)-> 3 -(0)-> 4
    let edges = [
        synthetic(0, 1, None),
        synthetic(1, 4, Some(5)),
        synthetic(0, 2, None),
        synthetic(2, 3, Some(9)),
        synthetic(3, 4, Some(0)),
    ];
    assert_eq!(
        steps(&edges, &min_cut(&edges, Nodes::new(4))),
        vec![(1, 4), (3, 4)]
    );
}

/// Depth is a property of the graph, so the search stays off the call stack.
#[test]
fn deep_chain_does_not_exhaust_the_stack() {
    const LEN: u32 = 100_000;
    let mut edges: Vec<Edge> = (0..LEN - 1)
        .map(|v| synthetic(v, v + 1, Some(7)))
        .collect();
    let cheapest = LEN / 2;
    edges[cheapest as usize] = synthetic(cheapest, cheapest + 1, Some(3));

    assert_eq!(
        steps(&edges, &min_cut(&edges, Nodes::new(LEN as usize - 1))),
        vec![(cheapest, cheapest + 1)]
    );
}

/// Of equally cheap cuts the one nearest to the source is taken.
#[test]
fn ties_are_cut_nearest_to_the_source() {
    let edges = [
        synthetic(0, 1, Some(5)),
        synthetic(1, 2, Some(5)),
        synthetic(2, 3, Some(5)),
    ];
    assert_eq!(steps(&edges, &min_cut(&edges, Nodes::new(3))), vec![(0, 1)]);
}

/// Flow that was sent one way has to be sent back for another path.
#[test]
fn flow_is_rerouted_through_a_cross_edge() {
    let edges = [
        synthetic(0, 1, Some(3)),
        synthetic(0, 2, Some(3)),
        synthetic(1, 2, Some(3)),
        synthetic(1, 3, Some(3)),
        synthetic(2, 3, Some(3)),
    ];
    assert_eq!(
        steps(&edges, &min_cut(&edges, Nodes::new(3))),
        vec![(0, 1), (0, 2)]
    );
}

// Walks.

/// The single bytes plus `extra`, and `rows` tokenized greedily.
fn walk_column(extra: &[&[u8]], rows: &[&[u8]]) -> Column {
    let mut tokens: BTreeSet<Vec<u8>> = (0..=255u8).map(|b| vec![b]).collect();
    tokens.extend(extra.iter().map(|t| t.to_vec()));
    column_of(tokens, rows)
}

/// Every row's answer from the walk alone, trying every code of the row as the
/// hit, against byte containment.
fn assert_walk_decides(extra: &[&[u8]], rows: &[&[u8]], needle: &[u8]) {
    let column = walk_column(extra, rows);
    let dict = column.dict();
    let frequencies = build_token_frequency_index(&column.codes, dict.num_tokens()).unwrap();
    let planned = plan(dict, needle, frequencies.as_view());
    for (row, text) in rows.iter().enumerate() {
        let start = column.row_offsets[row] as usize;
        let end = column.row_offsets[row + 1] as usize;
        let walked =
            (start..end).any(|hit| planned.walk.check(dict, &column.codes, start, end, hit));
        let contains = byte_contains(text, needle);
        assert_eq!(
            walked,
            contains,
            "row {row} {:?}",
            String::from_utf8_lossy(text)
        );
    }
}

/// `goo|gl|e` is the parse from the start; `agoo` enters at node 3 with the
/// needle's head as its tail; `es` ends it inside a longer token; `gooxgle`
/// and `gogle` hit the same tokens and must fail.
#[test]
fn interior_entry_and_exit_layouts() {
    let extra: &[&[u8]] = &[b"goo", b"gl", b"es", b"agoo", b"oo"];
    let rows: &[&[u8]] = &[
        b"google",
        b"xagoogle",
        b"googles",
        b"gooxgle",
        b"gogle",
        b"agoo gl e",
        b"",
    ];
    assert_walk_decides(extra, rows, b"No in ");
    assert_walk_decides(extra, rows, b"google");
}

/// The needle further inside one token, and a token the needle is a prefix of,
/// are both a single step from source to sink.
#[test]
fn whole_needle_inside_one_token() {
    assert_walk_decides(
        &[b"xgooglex", b"googlez", b"goo", b"gl"],
        &[b"xgooglex", b"googlez", b"xgoogle", b"goog"],
        b"google",
    );
}

/// `ab` is a point step out of the source and the terminal range out of node
/// 2, so each hit tries both roles; only one of them confirms.
#[test]
fn a_token_on_two_edges() {
    assert_walk_decides(
        &[b"ab"],
        &[b"abab", b"xabab", b"ababx", b"abxab", b"ab", b"aabb"],
        b"abab",
    );
}

/// An occurrence cannot cross a row boundary.
#[test]
fn walk_stops_at_the_row() {
    assert_walk_decides(&[b"goo", b"gl"], &[b"goo", b"gle", b"google"], b"google");
}

/// A failed trial at one hit must not cost the occurrence starting inside it.
#[test]
fn overlapping_occurrence_needs_no_back_edge() {
    let rows: &[&[u8]] = &[
        b"appappapple",
        b"appapple",
        b"appappappapple",
        b"xappappapplex",
        b"appappaple",
        b"appapp",
        b"apple",
    ];
    assert_walk_decides(&[b"app", b"le"], rows, b"appapple");
    assert_walk_decides(&[b"app", b"apple", b"le"], rows, b"appapple");
    assert_walk_decides(&[b"appa", b"pp", b"pple", b"le"], rows, b"appapple");
    assert_walk_decides(
        &[b"aa", b"aab", b"aabaaabaa"],
        &[b"aabaaabaa", b"aabaab", b"aaa", b"baaab"],
        b"aaa",
    );
}

/// More than [`SET_CAP`] tokens end with `g`, so alignment 1's set is not
/// enumerated, and the entry is answered off the dictionary.
#[test]
fn entry_through_a_set() {
    let tails: Vec<Vec<u8>> = (b'a'..=b'z').map(|b| vec![b, b'g']).collect();
    let mut extra: Vec<&[u8]> = tails.iter().map(Vec::as_slice).collect();
    extra.extend_from_slice(&[b"oo", b"gl"]);
    assert_walk_decides(
        &extra,
        &[b"zgoogle", b"zgoogl", b"google", b"zg oogle"],
        b"google",
    );
}

/// A dictionary without a byte of the needle answers with the escape.
#[test]
fn a_missing_byte_is_an_escape_step() {
    let bytes = b"ab".to_vec();
    let offsets = vec![0u32, 1, 2];
    let dict = DictView::new(&bytes, &offsets);
    let codes = [0u16, 1];
    let frequencies = build_token_frequency_index(&codes, 256).unwrap();
    let graph = build_alignment_graph(dict, b"acb", frequencies.as_view());
    let points: Vec<(u32, u32, Token)> = graph
        .edges
        .iter()
        .filter_map(|edge| match edge.probe {
            ProbeSet::Point(token) => Some((edge.from, edge.to, token)),
            _ => None,
        })
        .collect();
    assert_eq!(points, vec![(0, 1, 0), (1, 2, 0xFF)]);
}

/// Covered codes are at least the rows that hold one, and as many where no row
/// holds two.
#[test]
fn covered_codes_bound_the_candidate_rows() {
    let candidate_rows = |column: &Column, cover: &ProbeCover| {
        (0..column.num_rows())
            .filter(|&row| column.row_codes(row).iter().any(|&c| cover.contains(c)))
            .count()
    };
    for (rows, rows_hit, codes_hit) in [
        (&[&b"xax"[..], b"xx", b"ax"][..], 2, 2),
        (&[&b"axa"[..], b"xx", b"ax"][..], 2, 3),
    ] {
        let column = walk_column(&[], rows);
        let frequencies =
            build_token_frequency_index(&column.codes, column.dict().num_tokens()).unwrap();
        let analysis = analyze_prefilter(b"a", column.dict(), &frequencies, column.num_rows());
        assert_eq!(candidate_rows(&column, analysis.probe_cover()), rows_hit);
        assert_eq!(analysis.covered_frequency(), codes_hit);
    }
}

/// A run takes one probe however many ids it holds, and no description of the
/// same ids takes fewer.
#[test]
fn runs_are_the_fewest_probes() {
    let cover = ProbeCover::from_membership(vec![true, true, true, false, true, false, true]);
    assert_eq!(cover.points(), vec![4, 6]);
    assert_eq!(cover.ranges(), vec![TokenRange { begin: 0, last: 2 }]);
}

/// The tokens that start with the whole needle lead from the source to the
/// sink, so the cut takes them whatever they cost.
#[test]
fn a_direct_step_is_in_the_cut() {
    let edges = [
        synthetic(0, 2, Some(100)),
        synthetic(0, 1, Some(1)),
        synthetic(1, 2, Some(2)),
    ];
    assert_eq!(min_cut(&edges, Nodes::new(2)), vec![0, 1]);
}

/// At each offset the greedy step's token is none of the tokens that end the
/// needle there.
#[test]
fn steps_at_one_offset_are_disjoint() {
    let column = walk_column(
        &[b"goo", b"gl", b"googles", b"gles", b"les"],
        &[b"google"],
    );
    let frequencies =
        build_token_frequency_index(&column.codes, column.dict().num_tokens()).unwrap();
    let graph = build_alignment_graph(column.dict(), b"google", frequencies.as_view());
    let mut compared = 0;
    for step in &graph.edges {
        for end in &graph.edges {
            if let (ProbeSet::Point(token), ProbeSet::Range(range)) = (&step.probe, &end.probe) {
                if step.from == end.from {
                    assert!(*token < range.begin || range.last < *token);
                    compared += 1;
                }
            }
        }
    }
    assert!(compared > 0);
}

/// Each maximal run, in order, is answered with the part of it to probe for;
/// what is given up leaves the table too.
#[test]
fn runs_are_narrowed_and_dropped() {
    let table = vec![
        true, true, true, false, true, false, true, true, false, true, true, true, true,
    ];
    let asked = std::cell::RefCell::new(Vec::new());
    let cover = ProbeCover::from_membership_with(table.clone(), |run| {
        asked.borrow_mut().push((run.begin, run.last));
        match run.begin {
            0 => Some(TokenRange { begin: 1, last: 1 }),
            4 => Some(run),
            6 => None,
            _ => Some(TokenRange {
                begin: 10,
                last: 11,
            }),
        }
    });
    assert_eq!(asked.into_inner(), vec![(0, 2), (4, 4), (6, 7), (9, 12)]);
    assert_eq!(cover.points(), vec![1, 4]);
    assert_eq!(
        cover.ranges(),
        vec![TokenRange {
            begin: 10,
            last: 11
        }]
    );
    for id in 0..table.len() as Token {
        assert_eq!(cover.contains(id), [1, 4, 10, 11].contains(&id), "at {id}");
    }
    assert_eq!(cover.table_len(), table.len());

    let kept = ProbeCover::from_membership_with(table.clone(), Some);
    let whole = ProbeCover::from_membership(table.clone());
    assert_eq!(kept.points(), whole.points());
    assert_eq!(kept.ranges(), whole.ranges());

    let dropped = ProbeCover::from_membership_with(table, |_| None);
    assert!(dropped.is_empty());
    assert!((0..13).all(|id| !dropped.contains(id)));
}

/// A plan's cover has one entry for every token of the dictionary.
#[test]
fn a_plan_is_as_wide_as_the_dictionary() {
    for extra in [&[][..], &[&b"ab"[..], b"abc"][..]] {
        let column = walk_column(extra, &[b"abcabc"]);
        let tokens = column.dict().num_tokens();
        assert_eq!(tokens, 256 + extra.len());
        let frequencies = build_token_frequency_index(&column.codes, tokens).unwrap();
        let planned = plan(column.dict(), b"bc", frequencies.as_view());
        assert_eq!(planned.cover.table_len(), tokens);
    }
}
