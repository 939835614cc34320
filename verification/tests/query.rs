//! Compressed-domain `contains` queries, against the decoded rows.

use onpair::bits::any_bit_in_range;
use onpair::dictionary::{DictView, Parts};
use onpair::query::classdfa::{ClassSearcher, Walk};
use onpair::query::dfa::TokenDfa;
use onpair::query::filter::Filter;
use onpair::query::prefilter::anchor_candidates;
use onpair::query::sparse::SparseSearcher;
use onpair::query::{CodeStats, ContainsSearcher};
use onpair::search::tokenize::tokenize;
use std::collections::{BTreeMap, BTreeSet};

/// Tokens laid out back to back, with room for a maximal token at the end.
fn dict(tokens: &[&[u8]]) -> (Vec<u8>, Vec<u32>) {
    let mut bytes = Vec::new();
    let mut offsets = vec![0u32];
    for t in tokens {
        bytes.extend_from_slice(t);
        offsets.push(bytes.len() as u32);
    }
    let last = offsets[offsets.len().saturating_sub(2)] as usize;
    if bytes.len() < last + 16 {
        bytes.resize(last + 16, 0);
    }
    (bytes, offsets)
}

/// A column whose dictionary holds the single bytes and the substrings of its
/// rows that weigh most, in order.
struct Column {
    bytes: Vec<u8>,
    offsets: Vec<u32>,
    codes: Vec<u16>,
    code_offsets: Vec<u32>,
}

impl Column {
    fn as_parts(&self) -> Parts<'_> {
        Parts {
            dict_bytes: &self.bytes,
            dict_offsets: &self.offsets,
            codes: &self.codes,
        }
    }
}

fn compress(rows: &[&[u8]], max_tokens: usize) -> Column {
    let mut weights: BTreeMap<Vec<u8>, usize> = BTreeMap::new();
    for row in rows.iter().take(400) {
        for len in [2usize, 3, 4, 5, 6, 8, 12, 16] {
            for window in row.windows(len) {
                *weights.entry(window.to_vec()).or_insert(0) += len;
            }
        }
    }
    let mut ranked: Vec<(usize, Vec<u8>)> = weights
        .into_iter()
        .filter(|(token, weight)| *weight >= 2 * token.len())
        .map(|(token, weight)| (weight, token))
        .collect();
    ranked.sort_by(|a, b| b.cmp(a));
    let mut tokens: BTreeSet<Vec<u8>> = (0..=255u8).map(|b| vec![b]).collect();
    for (_, token) in ranked {
        if tokens.len() >= max_tokens {
            break;
        }
        tokens.insert(token);
    }
    let mut bytes = Vec::new();
    let mut offsets = vec![0u32];
    for token in &tokens {
        bytes.extend_from_slice(token);
        offsets.push(bytes.len() as u32);
    }
    let mut codes = Vec::new();
    let mut code_offsets = vec![0u32];
    for row in rows {
        codes.extend(tokenize(row, DictView::new(&bytes, &offsets)));
        code_offsets.push(codes.len() as u32);
    }
    Column {
        bytes,
        offsets,
        codes,
        code_offsets,
    }
}

/// Ground truth: `contains` of each decoded row.
fn naive(rows: &[&[u8]], pattern: &[u8]) -> Vec<u64> {
    rows.iter()
        .enumerate()
        .filter(|(_, r)| pattern.is_empty() || r.windows(pattern.len()).any(|w| w == pattern))
        .map(|(i, _)| i as u64)
        .collect()
}

const WALKS: [Walk; 4] = [Walk::Class, Walk::Pair, Walk::Hyperflex, Walk::HyperflexPair];

fn walks_of(s: &ClassSearcher, avx512_vbmi: bool) -> Vec<Walk> {
    WALKS
        .into_iter()
        .filter(|&w| s.supports(w, avx512_vbmi))
        .collect()
}

/// The walks whose tables are built.
fn all_walks(s: &ClassSearcher) -> Vec<Walk> {
    walks_of(s, true)
}

/// Every supported walk, filtered, unfiltered and interleaved, must agree.
fn class_rows(s: &ClassSearcher, codes: &[u16], offsets: &[u32]) -> Vec<u64> {
    let expect = s.matching_rows_unfiltered(codes, offsets, Walk::Class);
    let spans: Vec<(u32, u32)> = offsets.windows(2).map(|w| (w[0], w[1])).collect();
    for w in all_walks(s) {
        assert_eq!(
            s.matching_rows_unfiltered(codes, offsets, w),
            expect,
            "unfiltered {w:?} disagrees"
        );
        assert_eq!(
            s.matching_rows(codes, offsets, w),
            expect,
            "filtered {w:?} disagrees"
        );
        let ilv: Vec<u64> = s
            .matching_spans_ilv4(codes, &spans, w)
            .iter()
            .enumerate()
            .filter_map(|(i, &m)| m.then_some(i as u64))
            .collect();
        assert_eq!(ilv, expect, "ilv4 {w:?} disagrees");
    }
    assert_eq!(
        s.matching_rows_skip(codes, offsets),
        expect,
        "fused skip scan disagrees"
    );
    expect
}

#[test]
fn classdfa_matches_within_and_across_tokens() {
    let tokens: &[&[u8]] = &[b"ab", b"cd", b"abc", b"x"];
    let (bytes, offsets) = dict(tokens);
    let s = ClassSearcher::compile_dict(&bytes, &offsets, b"bcd");
    assert_eq!(
        class_rows(&s, &[0, 1, 1, 0, 3, 0, 1], &[0, 2, 4, 7]),
        vec![0, 2]
    );
    assert_eq!(class_rows(&s, &[2, 1, 2, 3, 0, 1], &[0, 2, 6]), vec![1]);
    assert!(class_rows(&s, &[2], &[0, 1]).is_empty());
}

#[test]
fn classdfa_overlapping_prefix_suffix() {
    let tokens: &[&[u8]] = &[b"ab", b"a", b"b"];
    let (bytes, offsets) = dict(tokens);
    let s = ClassSearcher::compile_dict(&bytes, &offsets, b"aba");
    assert_eq!(
        class_rows(&s, &[0, 1, 1, 2, 1, 0, 2, 0, 0, 1], &[0, 2, 5, 7, 10]),
        vec![0, 1, 3]
    );
}

#[test]
fn classdfa_empty_pattern_matches_everything() {
    let (bytes, offsets) = dict(&[b"ab"]);
    let s = ClassSearcher::compile_dict(&bytes, &offsets, b"");
    assert_eq!(
        s.matching_rows(&[0, 0], &[0u32, 1, 2], Walk::Class),
        vec![0, 1]
    );
    assert!(s.info().is_none());
}

#[test]
fn class_count_is_tiny() {
    let tokens: &[&[u8]] = &[b"ab", b"cd", b"abc", b"x", b"yz", b"qq", b"zz"];
    let (bytes, offsets) = dict(tokens);
    let s = ClassSearcher::compile_dict(&bytes, &offsets, b"bcd");
    let info = s.info().expect("compiled");
    assert!(info.nclasses < tokens.len() + 1, "classes must collapse");
    assert!(info.nstates <= 4, "only reachable states kept");
    assert!(info.trans2_bytes > 0, "pair table fits well under the cap");
}

/// A deterministic dictionary, pattern and stream.
fn random_case(rng: &mut dyn FnMut() -> u64) -> (Vec<u8>, Vec<u32>, Vec<u8>, Vec<u16>, Vec<u32>) {
    let alphabet = b"abcx";
    let ntokens = 3 + (rng() % 6) as usize;
    let tokens: Vec<Vec<u8>> = (0..ntokens)
        .map(|_| {
            let len = 1 + (rng() % 4) as usize;
            (0..len)
                .map(|_| alphabet[(rng() % alphabet.len() as u64) as usize])
                .collect()
        })
        .collect();
    let refs: Vec<&[u8]> = tokens.iter().map(Vec::as_slice).collect();
    let (bytes, offsets) = dict(&refs);

    let plen = 1 + (rng() % 6) as usize;
    let pattern: Vec<u8> = (0..plen)
        .map(|_| alphabet[(rng() % alphabet.len() as u64) as usize])
        .collect();

    let mut codes = Vec::new();
    let mut code_offsets = vec![0u32];
    for _ in 0..20 {
        for _ in 0..(rng() % 8) {
            codes.push((rng() % ntokens as u64) as u16);
        }
        code_offsets.push(codes.len() as u32);
    }
    (bytes, offsets, pattern, codes, code_offsets)
}

/// Deterministic cross-check against the dense pipeline.
#[test]
fn classdfa_cross_check_dense() {
    let mut x = 0x2545F4914F6CDD1Du64;
    let mut rng = move || {
        x ^= x << 13;
        x ^= x >> 7;
        x ^= x << 17;
        x
    };
    for _ in 0..200 {
        let (bytes, offsets, pattern, codes, code_offsets) = random_case(&mut rng);
        let class = ClassSearcher::compile_dict(&bytes, &offsets, &pattern);
        let parts = Parts {
            dict_bytes: &bytes,
            dict_offsets: &offsets,
            codes: &codes,
        };
        let dense = ContainsSearcher::compile(parts, &pattern);
        let expect = dense.matching_rows_unfiltered(&codes, &code_offsets);
        assert_eq!(
            class_rows(&class, &codes, &code_offsets),
            expect,
            "pattern {:?}",
            String::from_utf8_lossy(&pattern),
        );
    }
}

#[test]
fn dfa_matches_within_and_across_tokens() {
    let tokens: &[&[u8]] = &[b"ab", b"cd", b"abc", b"x"];
    let (bytes, offsets) = dict(tokens);

    // "bcd" never appears inside a single token, only across "ab" and "cd".
    let dfa = TokenDfa::build(b"bcd", &bytes, &offsets);
    assert!(dfa.row_matches(&[0, 1])); // "abcd" contains "bcd"
    assert!(!dfa.row_matches(&[1, 0])); // "cdab"
    assert!(dfa.row_matches(&[3, 0, 1])); // "xabcd"
    assert!(!dfa.row_matches(&[2])); // "abc"
    assert!(!dfa.row_matches(&[2, 1])); // "abccd"
    assert!(dfa.row_matches(&[2, 3, 0, 1])); // "abcxabcd"
}

#[test]
fn within_token_match() {
    let tokens: &[&[u8]] = &[b"hello world", b"z"];
    let (bytes, offsets) = dict(tokens);
    let dfa = TokenDfa::build(b"lo wo", &bytes, &offsets);
    assert!(dfa.row_matches(&[0]));
    assert!(!dfa.row_matches(&[1]));
}

#[test]
fn dfa_overlapping_prefix_suffix() {
    // A pattern with a border exercises the failure function.
    let tokens: &[&[u8]] = &[b"ab", b"a", b"b"];
    let (bytes, offsets) = dict(tokens);
    let dfa = TokenDfa::build(b"aba", &bytes, &offsets);
    assert!(dfa.row_matches(&[0, 1])); // "ab" "a"
    assert!(dfa.row_matches(&[1, 2, 1])); // "a" "b" "a"
    assert!(!dfa.row_matches(&[0, 2])); // "abb"
    assert!(dfa.row_matches(&[0, 0, 1])); // "ababa"
}

fn corpus() -> Vec<Vec<u8>> {
    let hosts = ["https://www.google.com", "https://yandex.ru", "ftp://x.org"];
    let paths = ["/search?q=", "/maps/place/", "/", "/login", "/img.png"];
    (0..4000usize)
        .map(|i| {
            format!(
                "{}{}{}",
                hosts[i % hosts.len()],
                paths[(i / 3) % paths.len()],
                i % 97
            )
            .into_bytes()
        })
        .collect()
}

#[test]
fn agrees_with_naive_contains() {
    let rows_owned = corpus();
    let rows: Vec<&[u8]> = rows_owned.iter().map(|r| r.as_slice()).collect();

    for max_tokens in [1usize << 9, 1 << 12, 1 << 16] {
        let col = compress(&rows, max_tokens);
        for pattern in [
            &b"google"[..],
            b"maps/place",
            b"yandex.ru/login",
            b"q=",
            b"zzz-no-match",
            b"g",
            b"https://www.google.com/search?q=1", // full row prefix
            b"7",
        ] {
            let s = ContainsSearcher::compile(col.as_parts(), pattern);
            let expect = naive(&rows, pattern);
            let got = s.matching_rows(&col.codes, &col.code_offsets);
            assert_eq!(got, expect, "max_tokens={max_tokens} pattern={pattern:?}");
            let unfiltered = s.matching_rows_unfiltered(&col.codes, &col.code_offsets);
            assert_eq!(unfiltered, expect, "unfiltered max_tokens={max_tokens}");

            // Candidates must be a superset of matches: no false negatives.
            let cand = s.candidate_rows(&col.codes, &col.code_offsets);
            let mut it = cand.iter().copied();
            assert!(
                expect.iter().all(|&m| it.any(|c| c == m)),
                "prefilter dropped a matching row: max_tokens={max_tokens} pattern={pattern:?}",
            );
        }
    }
}

/// A tiny alphabet: most matches straddle token boundaries.
#[test]
fn randomized_small_alphabet_agrees_with_naive() {
    let mut x = 0x243F6A8885A308D3u64;
    let mut rng = move || {
        x = x.wrapping_add(0x9E3779B97F4A7C15);
        let mut z = x;
        z = (z ^ (z >> 30)).wrapping_mul(0xBF58476D1CE4E5B9);
        z ^ (z >> 31)
    };
    let rows_owned: Vec<Vec<u8>> = (0..2000)
        .map(|_| {
            let len = (rng() % 40) as usize;
            (0..len).map(|_| b'a' + (rng() % 4) as u8).collect()
        })
        .collect();
    let rows: Vec<&[u8]> = rows_owned.iter().map(|r| r.as_slice()).collect();
    let col = compress(&rows, 1 << 12);

    for trial in 0..40 {
        // Half the patterns are real substrings, half are random.
        let pattern: Vec<u8> = if trial % 2 == 0 {
            let r = &rows_owned[(rng() as usize) % rows_owned.len()];
            if r.is_empty() {
                continue;
            }
            let s = (rng() as usize) % r.len();
            let e = s + 1 + (rng() as usize) % (r.len() - s);
            r[s..e].to_vec()
        } else {
            let len = 1 + (rng() % 12) as usize;
            (0..len).map(|_| b'a' + (rng() % 4) as u8).collect()
        };
        let s = ContainsSearcher::compile(col.as_parts(), &pattern);
        assert_eq!(
            s.matching_rows(&col.codes, &col.code_offsets),
            naive(&rows, &pattern),
            "pattern={:?}",
            String::from_utf8_lossy(&pattern)
        );
    }
}

#[test]
fn mod_empty_pattern_matches_all_rows() {
    let rows: Vec<&[u8]> = vec![b"abc", b"", b"xyz"];
    let col = compress(&rows, 1 << 12);
    let s = ContainsSearcher::compile(col.as_parts(), b"");
    assert_eq!(
        s.matching_rows(&col.codes, &col.code_offsets),
        vec![0, 1, 2]
    );
}

#[test]
fn empty_rows_and_pattern_longer_than_row() {
    let rows: Vec<&[u8]> = vec![b"", b"ab", b"abab", b""];
    let col = compress(&rows, 1 << 12);
    let s = ContainsSearcher::compile(col.as_parts(), b"abab");
    assert_eq!(s.matching_rows(&col.codes, &col.code_offsets), vec![2]);
}

#[test]
fn match_spanning_many_tokens() {
    // A pattern far longer than a token must still be found.
    let row = b"begin-0123456789abcdefghij-ABCDEFGHIJKLMNOPQRSTUVWXYZ-end".to_vec();
    let rows: Vec<&[u8]> = vec![&row, b"other row"];
    let col = compress(&rows, 1 << 12);
    let s = ContainsSearcher::compile(
        col.as_parts(),
        b"0123456789abcdefghij-ABCDEFGHIJKLMNOPQRSTUVWXYZ",
    );
    assert_eq!(s.matching_rows(&col.codes, &col.code_offsets), vec![0]);
}

#[test]
fn interval_scan_matches_scalar() {
    let intervals: Vec<(u16, u16)> = vec![(3, 7), (100, 100), (60000, 65535)];
    let codes: Vec<u16> = (0..1000u32)
        .map(|i| (i.wrapping_mul(2654435761) >> 16) as u16)
        .collect();
    let mut set = vec![0u64; 1024];
    for &(lo, hi) in &intervals {
        for id in lo..=hi {
            set[id as usize / 64] |= 1 << (id % 64);
        }
    }
    let filter = Filter::from_bitmap(&set, 65536);
    let mut mask = vec![0u64; codes.len().div_ceil(64)];
    filter.candidate_mask(&codes, &mut mask);
    for (i, &c) in codes.iter().enumerate() {
        let expect = intervals.iter().any(|&(lo, hi)| lo <= c && c <= hi);
        assert_eq!(mask[i / 64] >> (i % 64) & 1 == 1, expect, "code {c}");
        assert_eq!(filter.test(c), expect, "code {c}");
    }
}

#[test]
fn any_bit_in_range_word_boundaries() {
    let mut mask = vec![0u64; 3];
    mask[1] = 1 << 5; // bit 69
    assert!(any_bit_in_range(&mask, 0, 192));
    assert!(any_bit_in_range(&mask, 69, 70));
    assert!(any_bit_in_range(&mask, 64, 128));
    assert!(!any_bit_in_range(&mask, 0, 69));
    assert!(!any_bit_in_range(&mask, 70, 192));
    assert!(!any_bit_in_range(&mask, 0, 0));
    assert!(any_bit_in_range(&mask, 63, 70));
}

#[test]
fn anchor_candidates_are_necessary() {
    // Dictionary of all bytes plus a few multi-byte tokens.
    let mut bytes: Vec<u8> = (0u16..256).map(|b| b as u8).collect();
    let mut offsets: Vec<u32> = (0u32..=256).collect();
    for t in [&b"goog"[..], b"le.com", b"oogle", b"xyz"] {
        bytes.extend_from_slice(t);
        offsets.push(bytes.len() as u32);
    }
    let pattern = b"google";
    let sets = anchor_candidates(pattern, &bytes, &offsets);
    assert_eq!(sets.len(), pattern.len());

    let has = |set: &[u64], c: usize| set[c / 64] >> (c % 64) & 1 == 1;
    // Token "goog" (code 256) starts the pattern: covers anchors 0..4.
    for i in 0..4 {
        assert!(has(&sets[i], 256), "anchor {i} must allow \"goog\"");
    }
    // "le.com" (257) aligns at 4 ("le" agrees, ".com" past the end).
    assert!(has(&sets[4], 257));
    assert!(has(&sets[5], 257));
    // "oogle" (258) covers anchors 1..6 at 1.
    for i in 1..6 {
        assert!(has(&sets[i], 258), "anchor {i} must allow \"oogle\"");
    }
    // "xyz" (259) overlaps nowhere.
    for set in &sets {
        assert!(!has(set, 259));
    }
    // Single byte 'g' covers anchors 0 and 3; not 1.
    assert!(has(&sets[0], b'g' as usize));
    assert!(has(&sets[3], b'g' as usize));
    assert!(!has(&sets[1], b'g' as usize));
}

fn sparse_rows(s: &SparseSearcher, codes: &[u16], offsets: &[u32]) -> Vec<u64> {
    let filtered = s.matching_rows(codes, offsets);
    let unfiltered = s.matching_rows_unfiltered(codes, offsets);
    assert_eq!(filtered, unfiltered, "prefilter changed the answer");
    let candidates = s.candidate_rows(codes, offsets);
    for r in &filtered {
        assert!(candidates.contains(r), "candidate set dropped a match");
    }
    filtered
}

#[test]
fn sparse_matches_within_and_across_tokens() {
    let tokens: &[&[u8]] = &[b"ab", b"cd", b"abc", b"x"];
    let (bytes, offsets) = dict(tokens);
    let s = SparseSearcher::compile_dict(&bytes, &offsets, b"bcd");
    assert_eq!(
        sparse_rows(&s, &[0, 1, 1, 0, 3, 0, 1], &[0, 2, 4, 7]),
        vec![0, 2]
    );
    assert_eq!(sparse_rows(&s, &[2, 1, 2, 3, 0, 1], &[0, 2, 6]), vec![1]);
    assert!(sparse_rows(&s, &[2], &[0, 1]).is_empty());
}

#[test]
fn sparse_overlapping_prefix_suffix() {
    let tokens: &[&[u8]] = &[b"ab", b"a", b"b"];
    let (bytes, offsets) = dict(tokens);
    let s = SparseSearcher::compile_dict(&bytes, &offsets, b"aba");
    assert_eq!(
        sparse_rows(&s, &[0, 1, 1, 2, 1, 0, 2, 0, 0, 1], &[0, 2, 5, 7, 10]),
        vec![0, 1, 3]
    );
}

#[test]
fn sparse_empty_pattern_matches_everything() {
    let (bytes, offsets) = dict(&[b"ab"]);
    let s = SparseSearcher::compile_dict(&bytes, &offsets, b"");
    assert_eq!(s.matching_rows(&[0, 0], &[0u32, 1, 2]), vec![0, 1]);
    assert!(s.info().is_none());
}

#[test]
fn impossible_pattern_matches_nothing() {
    let (bytes, offsets) = dict(&[b"ab", b"cd"]);
    let s = SparseSearcher::compile_dict(&bytes, &offsets, b"zz");
    assert!(sparse_rows(&s, &[0, 1, 0, 1], &[0, 2, 4]).is_empty());
    assert_eq!(s.info().expect("compiled").interesting, 0);
}

/// Deterministic cross-check against the dense pipeline.
#[test]
fn sparse_cross_check_dense() {
    let mut x = 0x9E3779B97F4A7C15u64;
    let mut rng = move || {
        x ^= x << 13;
        x ^= x >> 7;
        x ^= x << 17;
        x
    };
    for _ in 0..200 {
        let (bytes, offsets, pattern, codes, code_offsets) = random_case(&mut rng);
        let sparse = SparseSearcher::compile_dict(&bytes, &offsets, &pattern);
        let parts = Parts {
            dict_bytes: &bytes,
            dict_offsets: &offsets,
            codes: &codes,
        };
        let dense = ContainsSearcher::compile(parts, &pattern);
        let expect = dense.matching_rows_unfiltered(&codes, &code_offsets);
        assert_eq!(
            sparse_rows(&sparse, &codes, &code_offsets),
            expect,
            "pattern {:?}",
            String::from_utf8_lossy(&pattern),
        );
    }
}

#[test]
fn quantization_within_2x() {
    let counts = [0u64, 1, 2, 3, 1000, 1 << 40];
    let stats = CodeStats::from_counts(&counts);
    for (c, &n) in counts.iter().enumerate() {
        let approx = stats.approx_count(c);
        if n == 0 {
            assert_eq!(approx, 0);
        } else {
            assert!(approx <= n && n < approx * 2, "count {n} approx {approx}");
        }
    }
}

#[test]
fn from_codes_matches_from_counts_and_roundtrips() {
    let codes = [0u16, 0, 0, 2, 2, 5];
    let stats = CodeStats::from_codes(8, &codes);
    let expect = CodeStats::from_counts(&[3, 0, 2, 0, 0, 1, 0, 0]);
    assert_eq!(stats.as_bytes(), expect.as_bytes());
    assert_eq!(stats.num_tokens(), 8);
    let rt = CodeStats::from_bytes(stats.as_bytes());
    assert_eq!(rt.as_bytes(), stats.as_bytes());
}

/// Statistics only weigh the prefilter's choice, whatever they say.
#[test]
fn stats_do_not_change_the_answer() {
    let rows: Vec<&[u8]> = vec![b"alpha beta", b"gamma", b"alphabet", b"a l p h a"];
    let col = compress(&rows, 1 << 9);
    for counts in [
        vec![0u64; col.offsets.len() - 1],
        vec![u32::MAX as u64; col.offsets.len() - 1],
        (0..col.offsets.len() as u64 - 1).collect(),
    ] {
        let stats = CodeStats::from_counts(&counts);
        for pattern in [&b"alpha"[..], b"a", b"mm", b"zz"] {
            let s = ContainsSearcher::compile_with_stats(&col.bytes, &col.offsets, pattern, &stats);
            assert_eq!(
                s.matching_rows(&col.codes, &col.code_offsets),
                naive(&rows, pattern)
            );
        }
    }
}

/// Patterns up to the longest that the automaton holds.
#[test]
fn longest_patterns_are_found() {
    let long: Vec<u8> = (0..300).map(|i| b'a' + (i % 7) as u8).collect();
    let rows: Vec<&[u8]> = vec![&long, &long[..200], b"abc"];
    let col = compress(&rows, 1 << 9);
    for len in [253usize, 254] {
        let pattern = &long[3..3 + len];
        let s = ContainsSearcher::compile(col.as_parts(), pattern);
        assert_eq!(s.matching_rows(&col.codes, &col.code_offsets), vec![0]);
        let t = SparseSearcher::compile(col.as_parts(), pattern);
        assert_eq!(t.matching_rows(&col.codes, &col.code_offsets), vec![0]);
    }
}

/// The Hyperflex walks need the byte shuffle; the empty pattern needs nothing.
#[test]
fn hyperflex_walks_need_vbmi() {
    let tokens: &[&[u8]] = &[b"ab", b"cd", b"abc", b"x", b"yz", b"qq", b"zz"];
    let (bytes, offsets) = dict(tokens);
    let s = ClassSearcher::compile_dict(&bytes, &offsets, b"bcd");
    assert_eq!(walks_of(&s, true), WALKS);
    assert_eq!(walks_of(&s, false), [Walk::Class, Walk::Pair]);
    let s = ClassSearcher::compile_dict(&bytes, &offsets, b"");
    assert_eq!(walks_of(&s, false), WALKS);

    // More than 64 states are too many for the 64-byte rows.
    let pattern: Vec<u8> = (0..80u8).collect();
    let singles: Vec<Vec<u8>> = (0..80u8).map(|b| vec![b]).collect();
    let tokens: Vec<&[u8]> = singles.iter().map(|t| t.as_slice()).collect();
    let (bytes, offsets) = dict(&tokens);
    let s = ClassSearcher::compile_dict(&bytes, &offsets, &pattern);
    assert!(s.info().unwrap().nstates > 64);
    assert_eq!(walks_of(&s, true), [Walk::Class, Walk::Pair]);
}

fn prefilter_shape(
    tokens: &[&[u8]],
    codes: &[u16],
    pattern: &[u8],
) -> Option<(&'static str, u128, u128)> {
    let (bytes, offsets) = dict(tokens);
    let parts = Parts {
        dict_bytes: &bytes,
        dict_offsets: &offsets,
        codes,
    };
    let searcher = ContainsSearcher::compile(parts, pattern);
    searcher
        .prefilter_info()
        .map(|info| (info.strategy, info.hits, info.total))
}

/// The rarest anchor is kept, while it fires on a quarter of the codes at most.
#[test]
fn prefilter_info_reports_the_rarest_anchor() {
    let tokens: &[&[u8]] = &[b"a", b"ab", b"b", b"c"];
    let mut codes = vec![3u16; 10];
    codes.extend([0, 1, 2, 2]);
    // The first byte is covered by `a` and `ab`, the second by `ab` and `b`.
    assert_eq!(
        prefilter_shape(tokens, &codes, b"ab"),
        Some(("simd-intervals", 2, 14))
    );
    assert_eq!(
        prefilter_shape(tokens, &[0, 3, 3, 3], b"a"),
        Some(("simd-intervals", 1, 4))
    );
    assert_eq!(prefilter_shape(tokens, &[0, 3, 3], b"a"), None);
    assert_eq!(prefilter_shape(tokens, &codes, b""), None);
    assert_eq!(
        prefilter_shape(tokens, &[], b"ab"),
        Some(("simd-intervals", 0, 1))
    );

    let (bytes, offsets) = dict(tokens);
    let stats = CodeStats::from_counts(&[1, 0, 8, 64]);
    let searcher = ContainsSearcher::compile_with_stats(&bytes, &offsets, b"ab", &stats);
    let info = searcher.prefilter_info().unwrap();
    assert_eq!((info.hits, info.total), (1, 73));
}

/// Up to 16 runs of candidates are tested as intervals, more by a bitmap.
#[test]
fn the_strategy_follows_the_number_of_runs() {
    for (runs, strategy) in [(16usize, "simd-intervals"), (17, "bitmap")] {
        let mut owned: Vec<Vec<u8>> = Vec::new();
        for i in 0..runs as u8 {
            owned.push(vec![b'a', b'A' + i]);
            owned.push(vec![b'b', b'A' + i]);
        }
        let tokens: Vec<&[u8]> = owned.iter().map(|t| t.as_slice()).collect();
        let mut codes = vec![1u16; 9];
        codes.push(0);
        assert_eq!(
            prefilter_shape(&tokens, &codes, b"a"),
            Some((strategy, 1, 10))
        );
    }
}

/// Of anchors that fire equally often the one with fewer candidates is kept.
#[test]
fn ties_go_to_the_smaller_candidate_set() {
    let tokens: &[&[u8]] = &[b"a", b"xa", b"b", b"c"];
    let (bytes, offsets) = dict(tokens);
    let parts = Parts {
        dict_bytes: &bytes,
        dict_offsets: &offsets,
        codes: &[3, 3, 3],
    };
    let searcher = ContainsSearcher::compile(parts, b"ab");
    let codes = [0u16, 1, 2, 3];
    let code_offsets = [0u32, 1, 2, 3, 4];
    assert_eq!(searcher.candidate_rows(&codes, &code_offsets), vec![2]);
}

/// The empty pattern looks at neither the codes nor the offsets.
#[test]
fn the_empty_pattern_takes_any_stream() {
    let (bytes, offsets) = dict(&[b"a", b"b"]);
    let codes = [9u16, 0];
    let code_offsets = [7u32, 3, 90];
    let every = vec![0u64, 1];
    let parts = Parts {
        dict_bytes: &bytes,
        dict_offsets: &offsets,
        codes: &[0, 1],
    };
    let dense = ContainsSearcher::compile(parts, b"");
    assert_eq!(dense.matching_rows(&codes, &code_offsets), every);
    assert_eq!(dense.matching_rows_unfiltered(&codes, &code_offsets), every);
    assert_eq!(dense.candidate_rows(&codes, &code_offsets), every);
    let sparse = SparseSearcher::compile_dict(&bytes, &offsets, b"");
    assert_eq!(sparse.matching_rows(&codes, &code_offsets), every);
    assert_eq!(sparse.matching_rows_unfiltered(&codes, &code_offsets), every);
    assert_eq!(sparse.candidate_rows(&codes, &code_offsets), every);
    assert!(sparse.row_matches(&codes));
    let class = ClassSearcher::compile_dict(&bytes, &offsets, b"");
    assert_eq!(class.matching_rows_skip(&codes, &code_offsets), every);
    for walk in WALKS {
        assert_eq!(class.matching_rows(&codes, &code_offsets, walk), every);
        assert_eq!(
            class.matching_rows_unfiltered(&codes, &code_offsets, walk),
            every
        );
        assert!(class.row_matches(&codes, walk));
        assert_eq!(
            class.matching_spans_ilv4(&codes, &[(5, 1), (0, 80)], walk),
            vec![true, true]
        );
    }
}
