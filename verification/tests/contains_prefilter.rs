//! The probe cover that is chosen alignment by alignment.

use onpair::dictionary::DictView;
use onpair::search::contains_prefilter::{
    prefilter_candidates, prefilter_candidates_on, scan, ContainsPrefilter,
};
use onpair::search::kmp::KmpAutomaton;
use onpair::search::prefilter::scan::policy::TargetCaps;
use onpair::search::tokenize::tokenize;
use onpair::types::Token;
use std::collections::{BTreeMap, BTreeSet};

/// A column whose dictionary holds the single bytes and the substrings of its
/// rows that weigh most, in order.
struct Column {
    bytes: Vec<u8>,
    offsets: Vec<u32>,
    codes: Vec<Token>,
    row_offsets: Vec<u32>,
    rows: Vec<Vec<u8>>,
}

impl Column {
    fn dict(&self) -> DictView<'_> {
        DictView::new(&self.bytes, &self.offsets)
    }

    fn num_rows(&self) -> usize {
        self.rows.len()
    }

    fn row_codes(&self, row: usize) -> &[Token] {
        &self.codes[self.row_offsets[row] as usize..self.row_offsets[row + 1] as usize]
    }

    /// The bytes that a row's codes stand for.
    fn decode_row(&self, row: usize) -> Vec<u8> {
        self.row_codes(row)
            .iter()
            .flat_map(|&code| self.dict().token(code).to_vec())
            .collect()
    }
}

fn column_of(tokens: BTreeSet<Vec<u8>>, rows: &[&[u8]]) -> Column {
    let mut bytes = Vec::new();
    let mut offsets = vec![0u32];
    for token in &tokens {
        bytes.extend_from_slice(token);
        offsets.push(bytes.len() as u32);
    }
    let mut codes = Vec::new();
    let mut row_offsets = vec![0u32];
    for row in rows {
        codes.extend(tokenize(row, DictView::new(&bytes, &offsets)));
        row_offsets.push(codes.len() as u32);
    }
    Column {
        bytes,
        offsets,
        codes,
        row_offsets,
        rows: rows.iter().map(|row| row.to_vec()).collect(),
    }
}

fn compress_rows(rows: &[&[u8]]) -> Column {
    let mut weights: BTreeMap<Vec<u8>, usize> = BTreeMap::new();
    for row in rows {
        for len in 2..=16usize {
            for window in row.windows(len) {
                *weights.entry(window.to_vec()).or_insert(0) += len;
            }
        }
    }
    let mut ranked: Vec<(usize, Vec<u8>)> = weights
        .into_iter()
        .filter(|(token, weight)| *weight >= 2 * token.len())
        .map(|(token, weight)| (weight, token))
        .collect();
    ranked.sort_by(|a, b| b.cmp(a));
    let mut tokens: BTreeSet<Vec<u8>> = (0..=255u8).map(|b| vec![b]).collect();
    for (_, token) in ranked.into_iter().take(400) {
        tokens.insert(token);
    }
    let column = column_of(tokens, rows);
    for row in 0..column.num_rows() {
        assert_eq!(column.decode_row(row), column.rows[row]);
    }
    column
}

fn byte_contains(hay: &[u8], needle: &[u8]) -> bool {
    needle.is_empty() || hay.windows(needle.len()).any(|w| w == needle)
}

/// The rows that contain a pattern, by their bytes.
fn matching(column: &Column, pattern: &[u8]) -> Vec<usize> {
    (0..column.num_rows())
        .filter(|&row| byte_contains(&column.rows[row], pattern))
        .collect()
}

fn user_strings(count: usize) -> Vec<String> {
    (0..count)
        .map(|i| {
            format!(
                "https://www.example.com/user/{}/page{}",
                i * 7919 % 1000,
                i % 9
            )
        })
        .collect()
}

fn binary_strings(count: usize, len: usize, seed: u64) -> Vec<Vec<u8>> {
    let mut state = seed;
    (0..count)
        .map(|_| {
            (0..len)
                .map(|_| {
                    state = state
                        .wrapping_mul(6364136223846793005)
                        .wrapping_add(1442695040888963407);
                    (state >> 33) as u8
                })
                .collect()
        })
        .collect()
}

/// The prefix sums of the column's token frequencies.
fn cum_token_freq(column: &Column) -> Vec<u64> {
    let tokens = column.offsets.len() - 1;
    let mut counts = vec![0u64; tokens];
    for &code in &column.codes {
        counts[code as usize] += 1;
    }
    let mut sums = vec![0u64];
    for count in counts {
        sums.push(sums.last().unwrap() + count);
    }
    sums
}

fn prefilter_then_contains(column: &Column, sums: &[u64], pattern: &[u8]) -> Vec<usize> {
    if pattern.is_empty() {
        return (0..column.num_rows()).collect();
    }
    let table = KmpAutomaton::new(pattern, column.dict());
    let pf = ContainsPrefilter::new(pattern, column.dict(), sums);
    let mut cand = Vec::new();
    prefilter_candidates(&column.codes, &column.row_offsets, &pf, &mut cand);
    cand.into_iter()
        .filter(|&r| table.matches(column.row_codes(r)))
        .collect()
}

/// Prefilter-then-verify must equal the rows' bytes; and the candidates must
/// be a superset of the matches, ascending and unique.
fn check(rows: &[&[u8]], patterns: &[&[u8]]) {
    let column = compress_rows(rows);
    let sums = cum_token_freq(&column);
    for &pat in patterns {
        let want = matching(&column, pat);
        assert_eq!(
            prefilter_then_contains(&column, &sums, pat),
            want,
            "{pat:?}"
        );

        let pf = ContainsPrefilter::new(pat, column.dict(), &sums);
        let mut cand = Vec::new();
        prefilter_candidates(&column.codes, &column.row_offsets, &pf, &mut cand);
        for w in &want {
            assert!(
                cand.contains(w),
                "candidate set dropped row {w} for {pat:?}"
            );
        }
        assert!(
            cand.windows(2).all(|w| w[0] < w[1]),
            "candidates must be ascending and unique for {pat:?}"
        );
        assert!(pf.points().windows(2).all(|w| w[0] < w[1]));
        assert!(pf
            .ranges()
            .windows(2)
            .all(|w| (w[0].begin, w[0].last) < (w[1].begin, w[1].last)));
    }
}

#[test]
fn prefilter_empty_pattern_matches_all_rows() {
    let rows: &[&[u8]] = &[b"a", b"", b"abc"];
    check(rows, &[b""]);
}

#[test]
fn single_and_multi_token_substrings() {
    let rows: &[&[u8]] = &[b"hello world", b"world peace", b"helloworld", b"hell"];
    check(
        rows,
        &[
            b"hello",
            b"world",
            b"o w",
            b"llowo",
            b"xyz",
            b"hello world",
            b"hello world!",
        ],
    );
}

#[test]
fn substrings_spanning_token_boundaries() {
    let rows: &[&[u8]] = &[b"abcabcabc", b"xabcabcy", b"ababab", b"cab"];
    check(
        rows,
        &[b"abc", b"bca", b"cab", b"bcabca", b"abcabcabc", b"ba"],
    );
}

#[test]
fn repeating_pattern_exercises_early_cuts() {
    let rows: &[&[u8]] = &[b"aaaaab", b"aabaab", b"ababab", b"aaa"];
    check(rows, &[b"aa", b"aaa", b"aab", b"abab", b"aaaa", b"aabaa"]);
}

#[test]
fn prefilter_matches_brute_force_on_repetitive_corpus() {
    let corpus: Vec<Vec<u8>> = user_strings(50)
        .into_iter()
        .map(String::into_bytes)
        .collect();
    let rows: Vec<&[u8]> = corpus.iter().map(Vec::as_slice).collect();
    check(
        &rows,
        &[
            b"example",
            b"https",
            b"://",
            b".com",
            b"/page",
            b"ftp",
            b"zzz",
            b"w",
            b"https://www.example.com/",
        ],
    );
}

#[test]
fn prefilter_matches_brute_force_on_binary_corpus() {
    let corpus = binary_strings(40, 24, 11);
    let rows: Vec<&[u8]> = corpus.iter().map(Vec::as_slice).collect();
    let patterns: &[&[u8]] = &[b"", b"\x00", b"\xff", b"\x00\x01", &[7u8], &[200u8, 201]];
    check(&rows, patterns);
}

/// Verified by its bytes, a pattern has no 255-byte cap.
#[test]
fn memmem_handles_pattern_over_255_bytes() {
    let long = vec![b'a'; 300];
    let short = vec![b'a'; 10];
    let rows: &[&[u8]] = &[&long, b"abc", &short];
    let column = compress_rows(rows);
    let sums = cum_token_freq(&column);
    let pat = vec![b'a'; 256];
    let pf = ContainsPrefilter::new(&pat, column.dict(), &sums);
    let mut cand = Vec::new();
    prefilter_candidates(&column.codes, &column.row_offsets, &pf, &mut cand);
    // Only the 300-byte row contains 256 consecutive 'a's.
    cand.retain(|&row| byte_contains(&column.decode_row(row), &pat));
    assert_eq!(cand, vec![0]);
}

/// A kernel must flag exactly the rows that the table scan does.
fn assert_kernel_matches_scalar(caps: TargetCaps) {
    let corpus: Vec<Vec<u8>> = user_strings(60)
        .into_iter()
        .map(String::into_bytes)
        .collect();
    let rows: Vec<&[u8]> = corpus.iter().map(Vec::as_slice).collect();
    let column = compress_rows(&rows);
    let sums = cum_token_freq(&column);
    let patterns: &[&[u8]] = &[
        b"e",
        b"://",
        b"example",
        b".com/page",
        b"https://www.example.com",
        b"zzz",
    ];
    for &pat in patterns {
        let pf = ContainsPrefilter::new(pat, column.dict(), &sums);
        let mut scalar = Vec::new();
        let mut simd = Vec::new();
        scan(
            &column.codes,
            &column.row_offsets,
            &pf,
            TargetCaps::Unsupported,
            &mut scalar,
        );
        scan(&column.codes, &column.row_offsets, &pf, caps, &mut simd);
        assert_eq!(scalar, simd, "kernel disagrees with scalar for {pat:?}");
    }
}

#[test]
fn neon_matches_scalar() {
    assert_kernel_matches_scalar(TargetCaps::Aarch64Neon);
}

#[test]
fn sse2_matches_scalar() {
    assert_kernel_matches_scalar(TargetCaps::X86_64 {
        avx2: false,
        avx512bw: false,
    });
}

#[test]
fn avx2_matches_scalar() {
    assert_kernel_matches_scalar(TargetCaps::X86_64 {
        avx2: true,
        avx512bw: false,
    });
}

#[test]
fn avx512_matches_scalar() {
    assert_kernel_matches_scalar(TargetCaps::X86_64 {
        avx2: true,
        avx512bw: true,
    });
}

/// One lane of the range core, in signed space, for every code and a spread of
/// bounds.
#[test]
fn prefilter_signed_bias_range_matches_unsigned() {
    fn in_range_biased(c: u16, lo: u16, hi: u16) -> bool {
        const BIAS: u16 = 0x8000;
        let cb = (c ^ BIAS) as i16;
        let lob = (lo ^ BIAS) as i16;
        let hib = (hi ^ BIAS) as i16;
        assert_eq!(onpair::search::prefilter::scan::probe::biased(c), cb);
        let below = lob > cb; // c < lo (unsigned)
        let above = cb > hib; // c > hi (unsigned)
        !(below || above) // in-range = complement of out-of-range
    }
    let bounds: &[(u16, u16)] = &[
        (0, 0),
        (0, u16::MAX),
        (0x7FFF, 0x8000), // straddles the signed sign boundary
        (0x8000, 0xFFFF), // wholly in the high half
        (0x00FF, 0xFF00),
        (1234, 1234),
        (40000, 50000),
    ];
    for &(lo, hi) in bounds {
        for c in 0..=u16::MAX {
            assert_eq!(
                in_range_biased(c, lo, hi),
                lo <= c && c <= hi,
                "c={c} lo={lo} hi={hi}"
            );
        }
    }
}

/// The lightest option of a terminal is probed for: a token that never occurs
/// costs nothing.
#[test]
fn the_lightest_option_is_chosen() {
    let mut tokens: BTreeSet<Vec<u8>> = (0..=255u8).map(|b| vec![b]).collect();
    tokens.insert(b"ab".to_vec());
    let column = column_of(tokens, &[b"abcabc", b"cccc", b"ab"]);
    let sums = cum_token_freq(&column);
    // "abc" is parsed `ab` `c` from its start; `ab` occurs 3 times, `c` and
    // what begins with it 6 times.
    let pf = ContainsPrefilter::new(b"abc", column.dict(), &sums);
    let ab = tokenize(b"ab", column.dict())[0];
    assert!(pf.points().contains(&ab));
    let c = tokenize(b"c", column.dict())[0];
    assert!(!pf.points().contains(&c));
    assert!(pf.ranges().iter().all(|r| !r.contains(c)));
}

/// Interior tokens and first-token sets are probed as points, terminal ranges
/// as ranges.
#[test]
fn points_and_ranges_are_kept_apart() {
    let mut tokens: BTreeSet<Vec<u8>> = (0..=255u8).map(|b| vec![b]).collect();
    tokens.insert(b"ab".to_vec());
    let column = column_of(tokens, &[b"abc"]);
    let id = |token: &[u8]| tokenize(token, column.dict())[0];
    let sums = |weights: &[(Token, u64)]| {
        let mut sums = vec![0u64];
        for t in 0..column.dict().num_tokens() as Token {
            let weight: u64 = weights.iter().filter(|w| w.0 == t).map(|w| w.1).sum();
            sums.push(sums[t as usize] + weight);
        }
        sums
    };
    let light_end = sums(&[(id(b"a"), 5), (id(b"ab"), 5), (id(b"b"), 5), (id(b"c"), 1)]);
    let pf = ContainsPrefilter::new(b"abc", column.dict(), &light_end);
    assert!(pf.points().is_empty());
    let ranges: Vec<(Token, Token)> = pf.ranges().iter().map(|r| (r.begin, r.last)).collect();
    assert_eq!(ranges, vec![(id(b"c"), id(b"c"))]);

    let heavy_end = sums(&[(id(b"a"), 5), (id(b"ab"), 1), (id(b"b"), 5), (id(b"c"), 9)]);
    let pf = ContainsPrefilter::new(b"abc", column.dict(), &heavy_end);
    let mut points = vec![id(b"ab"), id(b"b")];
    points.sort_unstable();
    assert_eq!(pf.points(), points);
    assert!(pf.ranges().is_empty());

    // A token that contains the whole needle is a point whatever it weighs.
    let pf = ContainsPrefilter::new(b"ab", column.dict(), &light_end);
    assert!(pf.points().contains(&id(b"ab")));
}

/// The candidates are the same by the kernels of every target.
#[test]
fn candidates_are_the_same_on_every_target() {
    let rows: &[&[u8]] = &[b"alpha beta", b"gamma", b"alphabet soup", b"", b"delta"];
    let column = compress_rows(rows);
    let sums = cum_token_freq(&column);
    for pattern in [&b""[..], b"alpha", b"ta", b"zz"] {
        let pf = ContainsPrefilter::new(pattern, column.dict(), &sums);
        assert_eq!(pf.match_all(), pattern.is_empty());
        let mut expected = vec![usize::MAX];
        prefilter_candidates(&column.codes, &column.row_offsets, &pf, &mut expected);
        for caps in [
            TargetCaps::Aarch64Neon,
            TargetCaps::X86_64 {
                avx2: true,
                avx512bw: false,
            },
            TargetCaps::X86_64 {
                avx2: true,
                avx512bw: true,
            },
            TargetCaps::Unsupported,
        ] {
            let mut got = vec![usize::MAX];
            prefilter_candidates_on(&column.codes, &column.row_offsets, &pf, caps, &mut got);
            assert_eq!(got, expected);
        }
    }
}
