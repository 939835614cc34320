//! Scans of code streams, kernel by kernel and stage by stage.

use onpair::rows::Offset;
use onpair::search::prefilter::cover::ProbeCover;
use onpair::search::prefilter::scan::avx2::{
    scan_avx2, scan_avx2_few, scan_avx2_fixed, scan_avx2_gather, scan_avx2_generic,
    scan_avx2_nibble_points, scan_avx2_one_point, scan_avx2_one_range,
};
use onpair::search::prefilter::scan::avx512::{execute_avx512, scan_avx512, scan_avx512_fixed};
use onpair::search::prefilter::scan::byte;
use onpair::search::prefilter::scan::dispatch::{scan, scan_scalar, PrefilterError};
use onpair::search::prefilter::scan::matcher::{
    EqOr, Matcher, NibbleN8, Range, Table, BLOCK, WORDS,
};
use onpair::search::prefilter::scan::neon::{scan_neon, scan_neon_generic};
use onpair::search::prefilter::scan::policy::{
    expected_hits, select_avx2, select_kernel, select_neon, AnalysisFacts, Avx512Kernel,
    CoverShape, FixedShape, Kernel, NeonKernel, Ratio, RegionFacts, RowMapping, ScanFacts,
    Sse2Kernel, TargetCaps,
};
use onpair::search::prefilter::scan::probe::HitMaterialization;
use onpair::search::prefilter::scan::resolver::{Check, GallopSeek, LinearSeek};
use onpair::search::prefilter::scan::sse2::{
    scan_sse2, scan_sse2_fixed, scan_sse2_generic, scan_sse2_rows_table,
};
use onpair::search::prefilter::scan::stages::{
    both_stages, clear_from, facts, resolve, select_matcher, Facts, Match,
};
use onpair::search::prefilter::scan::table::{
    pack_membership, pack_membership_dense, scan_codes, scan_rows, BailPolicy,
};
use onpair::types::{Token, TokenRange};

fn run(begin: Token, last: Token) -> TokenRange {
    TokenRange { begin, last }
}

// Byte streams.

/// A stream and row layer with uneven rows, empty rows, and a tail that is not
/// a multiple of any vector width.
fn byte_corpus() -> (Vec<u8>, Vec<u32>) {
    let codes: Vec<u8> = (0..1_603u32)
        .map(|index| (index * 37 + index / 13) as u8)
        .collect();
    let mut offsets = vec![0u32];
    let mut offset = 0;
    while offset < codes.len() {
        if offsets.len() % 17 == 0 {
            offsets.push(offset as u32);
        }
        offset = (offset + (offsets.len() * 11 % 23) + 1).min(codes.len());
        offsets.push(offset as u32);
    }
    (codes, offsets)
}

fn byte_cover(covered: impl Fn(u8) -> bool) -> ProbeCover {
    let mut table = vec![false; usize::from(Token::MAX) + 1];
    for code in 0..=u8::MAX {
        table[code as usize] = covered(code);
    }
    ProbeCover::from_membership(table)
}

#[test]
fn kernel_matches_the_scalar_oracle() {
    let (codes, row_offsets) = byte_corpus();
    let covers = [
        byte_cover(|code| code == 7),
        byte_cover(|code| code == 0 || code == 255),
        byte_cover(|code| matches!(code, 7 | 40 | 200)),
        byte_cover(|code| matches!(code, 0 | 7 | 40 | 255)),
        byte_cover(|code| matches!(code, 1 | 2 | 4 | 8 | 16 | 32)),
        byte_cover(|code| code < 16),
        byte_cover(|code| (32..=64).contains(&code)),
        byte_cover(|code| code == 9 || (32..=64).contains(&code)),
        byte_cover(|code| code % 17 == 0),
        byte_cover(|_| true),
        byte_cover(|_| false),
    ];
    for cover in &covers {
        let mut expected = Vec::new();
        byte::scan_scalar(&codes, &row_offsets, cover, &mut expected);
        for sparse_row_mapping in [false, true] {
            let mut got = Vec::new();
            byte::scan(&codes, &row_offsets, cover, sparse_row_mapping, &mut got);
            assert_eq!(got, expected);
        }
    }
}

/// Hits thousands of rows apart drive the sparse walk deep into its search.
#[test]
fn sparse_gaps_match_the_scalar_oracle() {
    for row_len in [1usize, 3, 12, 257] {
        for gap in [1usize, 2, 7, 64, 1_000, 30_011] {
            let rows = 4_096;
            let codes: Vec<u8> = (0..rows * row_len)
                .map(|index| if index % gap == 0 { 7 } else { 200 })
                .collect();
            let row_offsets: Vec<u32> = (0..=rows).map(|row| (row * row_len) as u32).collect();
            let cover = byte_cover(|code| code == 7);

            let mut expected = Vec::new();
            byte::scan_scalar(&codes, &row_offsets, &cover, &mut expected);
            for sparse_row_mapping in [false, true] {
                let mut got = Vec::new();
                byte::scan(&codes, &row_offsets, &cover, sparse_row_mapping, &mut got);
                assert_eq!(got, expected, "row_len {row_len}, gap {gap}");
            }
        }
    }
}

#[test]
fn byte_probes_drop_what_no_byte_is() {
    let cover = ProbeCover::new(vec![3, 300, 255], vec![run(10, 20), run(250, 400), run(256, 300)]);
    let (points, ranges) = byte::byte_probes(&cover);
    assert_eq!(points, vec![3, 255]);
    assert_eq!(ranges, vec![(10, 10), (250, 5)]);
}

// Matchers, against `ProbeCover::contains`.

fn mask<M: Matcher>(cover: &ProbeCover, codes: &[Token]) -> Vec<u64> {
    let mut bits = vec![0u64; WORDS];
    let any_hit = M::new(cover).check(codes, &mut bits);
    assert_eq!(any_hit, bits.iter().any(|&set| set != 0));
    bits
}

/// The mask that the cover defines, one code at a time.
fn expected_mask(cover: &ProbeCover, codes: &[Token]) -> Vec<u64> {
    let mut bits = vec![0u64; WORDS];
    for (at, &code) in codes.iter().enumerate() {
        if cover.contains(code) {
            bits[at / 64] |= 1 << (at % 64);
        }
    }
    bits
}

fn agrees<M: Matcher>(name: &str, cover: &ProbeCover, codes: &[Token]) {
    assert_eq!(
        mask::<M>(cover, codes),
        expected_mask(cover, codes),
        "{name} differs from the cover it was built from"
    );
}

/// A block whose codes are all distinct: 37 is invertible modulo 50021.
fn block() -> Vec<Token> {
    (0..BLOCK).map(|at| (at * 37 % 50021) as Token).collect()
}

fn every_matcher(cover: &ProbeCover, codes: &[Token]) {
    agrees::<Table>("table", cover, codes);
    agrees::<EqOr>("eq_or", cover, codes);
    agrees::<Range>("range", cover, codes);
    agrees::<NibbleN8>("nibble_n8", cover, codes);
}

/// One cover as it comes, then with one range beside it and with two.
fn every_matcher_ranged(cover: ProbeCover, lo: Token, hi: Token, codes: &[Token]) {
    every_matcher(&cover, codes);
    every_matcher(
        &ProbeCover::new(cover.points().to_vec(), vec![run(lo, hi)]),
        codes,
    );
    let two = [run(lo, hi), run(60000, 60100)];
    every_matcher(
        &ProbeCover::new(cover.points().to_vec(), two.to_vec()),
        codes,
    );
}

#[test]
fn agree_on_needles_the_block_holds() {
    let codes = block();
    for count in [1, 2, 3, 8, 9, 12, 16, 17, 24, 64] {
        let needles: Vec<Token> = (0..count).map(|k| codes[k * 37]).collect();
        let cover = ProbeCover::new(needles.to_vec(), vec![]);
        assert_eq!(
            expected_mask(&cover, &codes)
                .iter()
                .map(|word| word.count_ones())
                .sum::<u32>(),
            count as u32,
            "wrong hits at K = {count}"
        );
        every_matcher_ranged(cover, 1000, 2000, &codes);
    }
}

#[test]
fn agree_on_needles_the_block_does_not_hold() {
    let codes = vec![7 as Token; BLOCK];
    let needles: Vec<Token> = (0..4).map(|k| 60000 + k).collect();
    every_matcher(&ProbeCover::new(needles.to_vec(), vec![]), &codes);
}

/// A hit at the last position of a block.
#[test]
fn agree_on_a_hit_at_the_seam() {
    let mut codes = vec![7 as Token; BLOCK];
    codes[BLOCK - 1] = 60000;
    let cover = ProbeCover::new(vec![60000], vec![]);
    assert_eq!(
        expected_mask(&cover, &codes)[BLOCK / 64 - 1],
        1 << 63,
        "the definition missed the seam hit"
    );
    every_matcher(&cover, &codes);
}

/// Two codes that share a low byte must not be confused for each other.
#[test]
fn agree_on_codes_sharing_a_low_byte() {
    let mut codes = vec![0x0102 as Token; BLOCK];
    codes[70] = 0x0202;
    let cover = ProbeCover::new(vec![0x0202], vec![]);
    assert_eq!(
        expected_mask(&cover, &codes)[1],
        1 << 6,
        "the definition missed the planted code"
    );
    every_matcher_ranged(cover, 0x0302, 0x0402, &codes);
}

/// A range at both ends of the code space, and over a run that the block holds
/// nothing of.
#[test]
fn agree_on_ranges_of_wide_codes() {
    let codes = block();
    for (lo, hi) in [
        (0 as Token, Token::MAX),
        (0, 0),
        (37, 37),
        (1000, 2000),
        (50000, 50020),
        (50021, Token::MAX),
    ] {
        let ranges = [run(lo, hi)];
        every_matcher(&ProbeCover::new(vec![], ranges.to_vec()), &codes);
        every_matcher(
            &ProbeCover::new(vec![0 as Token, 30000, 50020], ranges.to_vec()),
            &codes,
        );
    }
    let all = expected_mask(&ProbeCover::new(vec![], vec![run(0, Token::MAX)]), &codes);
    assert!(
        all.iter().all(|&word| word == !0),
        "a code outside the width"
    );
    let none = expected_mask(
        &ProbeCover::new(vec![], vec![run(50021, Token::MAX)]),
        &codes,
    );
    assert!(
        none.iter().all(|&word| word == 0),
        "a code at or above 50021"
    );
}

/// The codes just outside either end of what the cover admits.
#[test]
fn table_rejects_the_codes_around_its_own() {
    let codes: Vec<Token> = (0..BLOCK)
        .map(|at| [999, 1000, 3000, 3001, 0, Token::MAX][at % 6])
        .collect();
    every_matcher(
        &ProbeCover::new(vec![1000 as Token], vec![run(2500, 3000)]),
        &codes,
    );
    every_matcher(&ProbeCover::new(vec![1000 as Token, 3000], vec![]), &codes);
    let bits = mask::<Table>(&ProbeCover::new(vec![1000 as Token, 3000], vec![]), &codes);
    assert_eq!(bits[0] & 0x3f, 0b000110);
}

/// One planted code, one hit and no more.
#[test]
fn the_table_masks_one_code() {
    let codes = block();
    let bits = mask::<Table>(&ProbeCover::new(codes[100..101].to_vec(), vec![]), &codes);
    assert_eq!(bits[100 / 64] >> (100 % 64) & 1, 1, "missed the code");
    assert_eq!(
        bits.iter().map(|word| word.count_ones()).sum::<u32>(),
        1,
        "extra hits"
    );
}

/// The block driver, whose tail is zero-padded and trimmed.
#[test]
fn the_driver_scans_every_block() {
    let codes: Vec<Token> = (0..2 * BLOCK + 100)
        .map(|at| (at * 37 % 50021) as Token)
        .collect();
    let row_offsets: Vec<u32> = (0..=codes.len() as u32).step_by(64).collect();
    let at = 2 * BLOCK + 40;
    let needles = codes[at..at + 1].to_vec();
    let mut found = Vec::new();
    both_stages::<Table, LinearSeek, u32>(
        &ProbeCover::new(needles.to_vec(), vec![]),
        &codes,
        &row_offsets,
        &Check::Superset,
        &mut found,
    );
    assert_eq!(found, vec![at / 64]);
}

/// A zero that the padding carries must not reach a resolver.
#[test]
fn padding_makes_no_candidate() {
    for length in [1, 2, 3, 5, BLOCK, BLOCK + 1, BLOCK + 2, BLOCK + 3] {
        let codes: Vec<Token> = (0..length).map(|at| (at % 255 + 1) as Token).collect();
        let row_offsets = vec![0, length as u32];
        let mut found = Vec::new();
        both_stages::<Table, LinearSeek, u32>(
            &ProbeCover::new(vec![0 as Token], vec![]),
            &codes,
            &row_offsets,
            &Check::Superset,
            &mut found,
        );
        assert!(found.is_empty(), "over {length} codes: {found:?}");
    }
}

#[test]
fn clearing_keeps_the_bits_below() {
    for valid in [0usize, 1, 63, 64, 65, 4095, 4096, 5000] {
        let mut bits = vec![u64::MAX; WORDS];
        clear_from(&mut bits, valid);
        for i in 0..BLOCK {
            assert_eq!(bits[i / 64] >> (i % 64) & 1 == 1, i < valid);
        }
    }
}

#[test]
fn the_matcher_follows_the_shape() {
    assert_eq!(
        select_matcher(&ProbeCover::new(vec![], vec![run(1, 2)])),
        Match::Range
    );
    assert_eq!(
        select_matcher(&ProbeCover::new(vec![1, 2], vec![run(7, 9)])),
        Match::EqOr
    );
    assert_eq!(
        select_matcher(&ProbeCover::new((0..24).collect(), vec![])),
        Match::NibbleN8
    );
    assert_eq!(
        select_matcher(&ProbeCover::new((0..25).collect(), vec![])),
        Match::Table
    );
}

// Resolvers, against the rows that a mask names.

const BLOCKS: usize = 4;
const CODES: usize = BLOCKS * BLOCK;

fn expected_rows(mask: &[u64], row_offsets: &[u32]) -> Vec<usize> {
    (0..row_offsets.len() - 1)
        .filter(|&row| {
            (row_offsets[row] as usize..row_offsets[row + 1] as usize)
                .any(|code| mask[code / 64] >> (code % 64) & 1 == 1)
        })
        .collect()
}

fn expected(mask: &[u64], row_offsets: &[u32]) -> Vec<usize> {
    let rows = expected_rows(mask, row_offsets);
    assert!(
        rows.windows(2).all(|pair| pair[0] < pair[1]),
        "the expectation is not ascending and unique: {rows:?}"
    );
    let bits: u32 = mask.iter().map(|set| set.count_ones()).sum();
    assert_eq!(rows.is_empty(), bits == 0, "{bits} hits and no rows");
    rows
}

fn every_resolver(case: &str, mask: &[u64], row_offsets: &[u32]) {
    let expected = expected(mask, row_offsets);
    assert_eq!(
        resolve::<LinearSeek, u32>(mask, row_offsets),
        expected,
        "skip on {case}"
    );
    assert_eq!(
        resolve::<GallopSeek, u32>(mask, row_offsets),
        expected,
        "gallop on {case}"
    );
    let wide: Vec<u64> = row_offsets
        .iter()
        .map(|&offset| u64::from(offset))
        .collect();
    assert_eq!(
        resolve::<LinearSeek, u64>(mask, &wide),
        expected,
        "skip at u64 on {case}"
    );
    assert_eq!(
        resolve::<GallopSeek, u64>(mask, &wide),
        expected,
        "gallop at u64 on {case}"
    );
}

/// Rows of `codes` codes, the last one stretched to the end.
fn uniform(codes: usize) -> Vec<u32> {
    let mut offsets: Vec<u32> = (0..CODES as u32).step_by(codes).collect();
    offsets.push(CODES as u32);
    offsets
}

/// Rows of wildly uneven length, a third of them empty.
fn ragged() -> Vec<u32> {
    let mut offsets = vec![0u32];
    let mut state = 0x2545_F491u32;
    while *offsets.last().unwrap() < CODES as u32 {
        state = state.wrapping_mul(0x0019_660D).wrapping_add(0x3C6E_F35F);
        let len = match state >> 30 {
            0 => 0,
            1 => 1 + state % 8,
            2 => 1 + state % 512,
            _ => 1 + state % 4096,
        };
        offsets.push((offsets.last().unwrap() + len).min(CODES as u32));
    }
    offsets
}

fn empty_mask() -> Vec<u64> {
    vec![0u64; CODES / 64]
}

fn strided(stride: usize) -> Vec<u64> {
    let mut mask = empty_mask();
    for code in (0..CODES).step_by(stride) {
        mask[code / 64] |= 1 << (code % 64);
    }
    mask
}

fn layers() -> Vec<(String, Vec<u32>)> {
    let mut layers = vec![
        ("ragged".to_string(), ragged()),
        ("one row".to_string(), vec![0, CODES as u32]),
    ];
    for codes in [1, 3, 8, 64, 65, 1024, BLOCK, BLOCK + 7, 3 * BLOCK] {
        layers.push((format!("{codes} codes per row"), uniform(codes)));
    }
    layers
}

#[test]
fn agree_on_every_density() {
    for (name, row_offsets) in layers() {
        every_resolver(&format!("{name}, empty"), &empty_mask(), &row_offsets);
        every_resolver(
            &format!("{name}, full"),
            &vec![u64::MAX; CODES / 64],
            &row_offsets,
        );
        for stride in [1, 2, 7, 64, 97, 4096, 5000] {
            every_resolver(
                &format!("{name}, every {stride}th code"),
                &strided(stride),
                &row_offsets,
            );
        }
    }
}

/// Two hits in one row, on either side of a block boundary.
#[test]
fn agree_on_a_row_hit_in_two_blocks() {
    let row_offsets = vec![0, 100, (BLOCK + 2000) as u32, CODES as u32];
    for pair in [
        [BLOCK - 1, BLOCK],
        [BLOCK - 1, BLOCK + 1999],
        [150, BLOCK + 1999],
    ] {
        let mut mask = empty_mask();
        for code in pair {
            mask[code / 64] |= 1 << (code % 64);
        }
        assert_eq!(
            expected(&mask, &row_offsets),
            vec![1],
            "row 1 not emitted once for {pair:?}"
        );
        every_resolver(&format!("hits at {pair:?}"), &mask, &row_offsets);
    }
}

/// A hit in the first and the last code of the stream.
#[test]
fn agree_on_the_ends_of_the_stream() {
    for layer in [uniform(1), uniform(64), ragged()] {
        for code in [0, CODES - 1] {
            let mut mask = empty_mask();
            mask[code / 64] |= 1 << (code % 64);
            every_resolver(&format!("hit at {code}"), &mask, &layer);
        }
    }
}

/// A single hit far into the stream.
#[test]
fn agree_on_one_hit_after_many_rows() {
    let row_offsets = uniform(3);
    for code in [1, 2, 3, 4, 8, 4095, 4096, 4097, CODES - 2] {
        let mut mask = empty_mask();
        mask[code / 64] |= 1 << (code % 64);
        let rows = expected(&mask, &row_offsets);
        assert_eq!(rows, vec![code / 3], "lost the hit at {code}");
        every_resolver(&format!("one hit at {code}"), &mask, &row_offsets);
    }
}

// The facts that a scan is planned from.

/// What the scan is handed, and what it declines.
#[test]
fn the_scan_takes_a_cover_it_can_probe() {
    let codes = [0 as Token; 8];
    let rows = [0u32, 4, 8];
    let takes = |points: Vec<Token>, ranges: Vec<TokenRange>| {
        let cover = ProbeCover::new(points, ranges);
        facts(&codes, &rows, &cover, 1, codes.len()).is_some()
    };
    assert!(takes(vec![7], Vec::new()), "a point");
    assert!(takes(Vec::new(), vec![run(1, 9)]), "a range");
    assert!(takes(vec![7], vec![run(1, 9)]), "both");
    assert!(!takes(Vec::new(), Vec::new()), "a cover with nothing in it");

    let cover = ProbeCover::new(vec![7], Vec::new());
    let rowless: &[u32] = &[0];
    assert!(facts(&codes, rowless, &cover, 1, 8).is_none());
}

/// The facts that the scan plans its own halves from.
#[test]
fn the_scan_is_handed_the_region_it_will_see() {
    let codes = [0 as Token; 2_000];
    let rows: Vec<u32> = (0..=200).map(|row| row * 10).collect();
    let cover = ProbeCover::new(vec![7], Vec::new());
    assert_eq!(
        facts(&codes, &rows, &cover, 500, 10_000),
        Some(Facts {
            // A twentieth of the indexed codes are covered, so a twentieth of
            // the region's.
            expected_hits: 100,
            code_count: 2_000,
            row_count: 200,
        })
    );
}

/// The projection at its ends.
#[test]
fn the_hit_estimate_is_a_projection_of_the_index() {
    assert_eq!(expected_hits(7, 100, 100), 7);
    assert_eq!(expected_hits(500, 10_000, 2_000), 100);
    assert_eq!(expected_hits(1, 0, 100), 0);
    assert_eq!(expected_hits(1, 1, usize::MAX), usize::MAX);
}

// Kernel selection.

fn scan_facts(points: usize, ranges: usize) -> ScanFacts {
    ScanFacts {
        analysis: AnalysisFacts {
            shape: CoverShape { points, ranges },
            table_len: 4096,
            covered_codes: 1,
            indexed_codes: 10_000,
        },
        region: RegionFacts {
            code_count: 10_000,
            row_count: 1_000,
        },
    }
}

#[test]
fn empty_cover_precedes_target_selection() {
    let plan = select_kernel(TargetCaps::Unsupported, scan_facts(0, 0));
    assert_eq!(plan.kernel, Kernel::Empty);
}

#[test]
fn sparse_mapping_boundary_is_strict() {
    let mut below = scan_facts(1, 0);
    below.analysis.covered_codes = 0;
    assert_eq!(
        select_kernel(TargetCaps::Aarch64Neon, below).row_mapping,
        RowMapping::AdaptiveSparse
    );
    let at = scan_facts(1, 0);
    assert_eq!(
        select_kernel(TargetCaps::Aarch64Neon, at).row_mapping,
        RowMapping::Linear
    );
}

#[test]
fn neon_shape_matrix_preserves_specializations() {
    let cases = [
        ((0, 1), NeonKernel::OneRange),
        ((1, 1), NeonKernel::Fixed(FixedShape::new(1, 1))),
        ((2, 1), NeonKernel::Fixed(FixedShape::new(2, 1))),
        ((1, 2), NeonKernel::OnePointTwoRanges),
        ((3, 2), NeonKernel::FewMixed),
        ((3, 0), NeonKernel::FewPoints { points: 3 }),
        ((12, 0), NeonKernel::ManyPoints),
        ((1, 8), NeonKernel::Generic { two_vectors: true }),
        ((17, 0), NeonKernel::Generic { two_vectors: false }),
    ];
    for ((points, ranges), expected) in cases {
        assert_eq!(select_neon(CoverShape { points, ranges }), expected);
    }
}

#[test]
fn avx512_keeps_priority_over_other_x86_paths() {
    let mut input = scan_facts(20, 0);
    input.analysis.covered_codes = 8_000;
    input.region.row_count = 10;
    assert_eq!(
        select_kernel(
            TargetCaps::X86_64 {
                avx2: true,
                avx512bw: true,
            },
            input,
        )
        .kernel,
        Kernel::Avx512(Avx512Kernel::Generic)
    );
}

#[test]
fn avx2_row_table_boundary_matches_upstream() {
    let mut input = scan_facts(11, 0);
    input.region = RegionFacts {
        code_count: 32_000,
        row_count: 1_000,
    };
    input.analysis.indexed_codes = 32_000;
    input.analysis.covered_codes = 999;
    assert!(matches!(select_avx2(input), Kernel::Avx2(_)));
    input.analysis.covered_codes = 1_000;
    assert_eq!(select_avx2(input), Kernel::RowsTable);
}

#[test]
fn sse2_wide_cover_uses_code_or_row_table_at_density_boundaries() {
    let caps = TargetCaps::X86_64 {
        avx2: false,
        avx512bw: false,
    };
    let mut input = scan_facts(17, 0);
    input.region.row_count = 2_000;
    input.analysis.covered_codes = 499;
    assert_eq!(
        select_kernel(caps, input).kernel,
        Kernel::Sse2(Sse2Kernel::CodesTable)
    );
    input.analysis.covered_codes = 500;
    assert_eq!(select_kernel(caps, input).kernel, Kernel::RowsTable);
}

#[test]
fn projected_region_count_does_not_reuse_global_absolute_count() {
    let input = ScanFacts {
        analysis: AnalysisFacts {
            shape: CoverShape {
                points: 1,
                ranges: 0,
            },
            table_len: 1024,
            covered_codes: 1_000,
            indexed_codes: 1_000_000,
        },
        region: RegionFacts {
            code_count: 2_000,
            row_count: 100,
        },
    };
    assert_eq!(input.expected_covered_codes(), 2);
}

#[test]
fn ratios_do_not_overflow() {
    let half = Ratio::new(1, 2);
    assert!(half.at_most_fraction(usize::MAX, usize::MAX));
    assert!(half.above_fraction(1, usize::MAX));
    assert!(half.at_most_fraction(1, 2));
    assert!(!half.above_fraction(1, 2));
}

// Kernels, against the row-at-a-time walk.

const EDGE_POINTS: [Token; 17] = [
    7, 17, 31, 63, 127, 255, 511, 1_023, 2_047, 4_095, 8_191, 16_383, 24_575, 32_760, 32_772,
    49_151, 65_527,
];
const EDGE_RANGES: [(Token, Token); 3] = [
    (Token::MIN, 3),
    (0x7ffe, 0x8001),
    (Token::MAX - 3, Token::MAX),
];

fn edge_cover(points: usize, ranges: usize) -> ProbeCover {
    assert!(points <= EDGE_POINTS.len());
    assert!(ranges <= EDGE_RANGES.len());
    let mut table = vec![false; usize::from(Token::MAX) + 1];
    for &point in &EDGE_POINTS[..points] {
        table[usize::from(point)] = true;
    }
    for &(begin, last) in &EDGE_RANGES[..ranges] {
        table[usize::from(begin)..=usize::from(last)].fill(true);
    }
    let cover = ProbeCover::from_membership(table);
    assert_eq!((cover.points().len(), cover.ranges().len()), (points, ranges));
    cover
}

fn offset<O: TryFrom<usize>>(value: usize) -> O {
    match O::try_from(value) {
        Ok(offset) => offset,
        Err(_) => panic!("offset"),
    }
}

fn input<O: Offset + TryFrom<usize>>() -> (Vec<Token>, Vec<O>) {
    const VALUES: [Token; 13] = [
        0, 1, 6, 7, 8, 32_767, 32_768, 32_769, 65_531, 65_532, 65_533, 65_534, 65_535,
    ];
    // Three complete superblocks, one complete block, and tails that are no
    // multiple of any vector width.
    let codes = (0..1_603)
        .map(|index| VALUES[(index * 7 + index / 11) % VALUES.len()])
        .collect::<Vec<_>>();
    let mut offsets = vec![offset::<O>(0)];
    let mut at = 0;
    while at < codes.len() {
        if offsets.len() % 17 == 0 {
            offsets.push(offset::<O>(at));
        }
        let width = (offsets.len() * 11 % 23) + 1;
        at = (at + width).min(codes.len());
        offsets.push(offset::<O>(at));
    }
    (codes, offsets)
}

fn assert_cover<O: Offset + TryFrom<usize>, const POINTS: usize, const RANGES: usize>(
    codes: &[Token],
    row_offsets: &[O],
    cover: &ProbeCover,
) {
    let mut expected = Vec::new();
    scan_scalar(codes, row_offsets, cover, &mut expected);

    for sparse in [false, true] {
        let mut sse2 = Vec::new();
        scan_sse2_fixed::<O, POINTS, RANGES>(codes, row_offsets, cover, sparse, &mut sse2);
        assert_eq!(sse2, expected);
        let mut avx2 = Vec::new();
        scan_avx2_fixed::<O, POINTS, RANGES>(codes, row_offsets, cover, sparse, &mut avx2);
        assert_eq!(avx2, expected);
        let mut avx512 = Vec::new();
        scan_avx512_fixed::<O, POINTS, RANGES>(codes, row_offsets, cover, sparse, &mut avx512);
        assert_eq!(avx512, expected);
    }
}

fn assert_shape<O: Offset + TryFrom<usize>, const POINTS: usize, const RANGES: usize>() {
    let (codes, row_offsets) = input::<O>();
    assert_cover::<O, POINTS, RANGES>(&codes, &row_offsets, &edge_cover(POINTS, RANGES));
}

fn assert_sse2_shape<O: Offset + TryFrom<usize>, const POINTS: usize, const RANGES: usize>() {
    let (codes, row_offsets) = input::<O>();
    let cover = edge_cover(POINTS, RANGES);
    let mut expected = Vec::new();
    scan_scalar(&codes, &row_offsets, &cover, &mut expected);
    for sparse in [false, true] {
        let mut actual = Vec::new();
        scan_sse2_fixed::<O, POINTS, RANGES>(&codes, &row_offsets, &cover, sparse, &mut actual);
        assert_eq!(actual, expected);
    }
}

fn assert_full_domain_range<O: Offset + TryFrom<usize>>() {
    let (codes, row_offsets) = input::<O>();
    let cover = ProbeCover::from_membership(vec![true; usize::from(Token::MAX) + 1]);
    assert!(cover.points().is_empty());
    assert_eq!(cover.ranges(), [run(Token::MIN, Token::MAX)]);
    assert_cover::<O, 0, 1>(&codes, &row_offsets, &cover);
}

fn assert_all_shapes<O: Offset + TryFrom<usize>>() {
    assert_shape::<O, 1, 0>();
    assert_shape::<O, 2, 0>();
    assert_shape::<O, 3, 0>();
    assert_shape::<O, 0, 1>();
    assert_shape::<O, 1, 1>();
    assert_shape::<O, 2, 1>();
}

fn assert_all_sse2_shapes<O: Offset + TryFrom<usize>>() {
    assert_sse2_shape::<O, 0, 1>();
    assert_sse2_shape::<O, 2, 0>();
    assert_sse2_shape::<O, 3, 0>();
    assert_sse2_shape::<O, 1, 1>();
    assert_sse2_shape::<O, 4, 0>();
    assert_sse2_shape::<O, 2, 1>();
    assert_sse2_shape::<O, 5, 0>();
    assert_sse2_shape::<O, 0, 2>();
    assert_sse2_shape::<O, 1, 2>();
    assert_sse2_shape::<O, 3, 1>();
    assert_sse2_shape::<O, 6, 0>();
    assert_sse2_shape::<O, 4, 1>();
    assert_sse2_shape::<O, 2, 2>();
    assert_sse2_shape::<O, 0, 3>();
    assert_sse2_shape::<O, 3, 2>();
    assert_sse2_shape::<O, 1, 3>();
    assert_sse2_shape::<O, 4, 2>();
}

fn edge_input<O: Offset + TryFrom<usize>>(len: usize, cover: &ProbeCover) -> (Vec<Token>, Vec<O>) {
    let miss = (0..=Token::MAX)
        .find(|&code| !cover.contains(code))
        .expect("edge covers leave at least one token uncovered");
    let mut live = cover.points().to_vec();
    for range in cover.ranges() {
        live.push(range.begin);
        live.push(range.begin + (range.last - range.begin) / 2);
        live.push(range.last);
    }

    let mut codes = vec![miss; len];
    let mut positions = (0..live.len()).collect::<Vec<_>>();
    positions.extend([
        7, 8, 9, 15, 16, 17, 31, 32, 33, 63, 64, 65, 112, 127, 128, 129, 255, 256, 257, 511, 512,
    ]);
    positions.sort_unstable();
    positions.dedup();
    for (index, position) in positions
        .into_iter()
        .filter(|&position| position < len)
        .enumerate()
    {
        codes[position] = live[index % live.len()];
    }

    let one = len.min(1);
    let long_row_end = len.min(90);
    let offsets = [0, 0, one, one, long_row_end, long_row_end, len, len]
        .map(offset::<O>)
        .to_vec();
    (codes, offsets)
}

fn assert_generic_cover<O: Offset>(codes: &[Token], row_offsets: &[O], cover: &ProbeCover) {
    let mut expected = Vec::new();
    scan_scalar(codes, row_offsets, cover, &mut expected);
    for sparse in [false, true] {
        let mut sse2 = Vec::new();
        scan_sse2_generic(codes, row_offsets, cover, sparse, &mut sse2);
        assert_eq!(sse2, expected);
        let mut any_sse2 = Vec::new();
        scan_sse2(codes, row_offsets, cover, sparse, &mut any_sse2);
        assert_eq!(any_sse2, expected);
        let mut avx2 = Vec::new();
        scan_avx2_generic(codes, row_offsets, cover, sparse, &mut avx2);
        assert_eq!(avx2, expected);
        let mut one_avx2 = Vec::new();
        scan_avx2(codes, row_offsets, cover, sparse, &mut one_avx2);
        assert_eq!(one_avx2, expected);
        let mut gathered = Vec::new();
        scan_avx2_gather(codes, row_offsets, cover, sparse, &mut gathered);
        assert_eq!(gathered, expected);
        let mut avx512 = Vec::new();
        scan_avx512(codes, row_offsets, cover, sparse, &mut avx512);
        assert_eq!(avx512, expected);
        let mut neon = Vec::new();
        scan_neon(codes, row_offsets, cover, sparse, &mut neon);
        assert_eq!(neon, expected);
        for two_vectors in [false, true] {
            let mut generic = Vec::new();
            scan_neon_generic(codes, row_offsets, cover, sparse, two_vectors, &mut generic);
            assert_eq!(generic, expected);
        }
        let mut by_codes = Vec::new();
        scan_codes(codes, row_offsets, cover, sparse, &mut by_codes);
        assert_eq!(by_codes, expected);
    }
}

fn assert_edge_matrix<O: Offset + TryFrom<usize>>() {
    const LENGTHS: [usize; 21] = [
        0, 1, 7, 8, 9, 15, 16, 17, 31, 32, 33, 63, 64, 65, 113, 127, 128, 129, 511, 512, 513,
    ];
    const SHAPES: [(usize, usize); 20] = [
        (1, 0),
        (2, 0),
        (3, 0),
        (4, 0),
        (8, 0),
        (9, 0),
        (16, 0),
        (17, 0),
        (1, 1),
        (2, 1),
        (3, 1),
        (4, 1),
        (1, 2),
        (2, 2),
        (3, 2),
        (4, 2),
        (0, 3),
        (1, 3),
        (8, 2),
        (17, 3),
    ];
    for (points, ranges) in SHAPES {
        let cover = edge_cover(points, ranges);
        for len in LENGTHS {
            let (codes, row_offsets) = edge_input::<O>(len, &cover);
            assert_generic_cover(&codes, &row_offsets, &cover);
        }
    }
}

#[test]
fn fixed_producers_match_scalar_at_u16_boundaries() {
    assert_all_shapes::<u32>();
    assert_all_shapes::<u64>();
    assert_full_domain_range::<u32>();
    assert_full_domain_range::<u64>();
}

#[test]
fn all_sse2_fixed_shapes_match_scalar() {
    assert_all_sse2_shapes::<u32>();
    assert_all_sse2_shapes::<u64>();
}

#[test]
fn x86_edge_matrix_matches_scalar() {
    assert_edge_matrix::<u32>();
    assert_edge_matrix::<u64>();
}

/// The specialized AVX2 kernels on the shapes that they are for.
#[test]
fn specialized_kernels_match_scalar() {
    let (codes, row_offsets) = input::<u32>();
    for hits in [
        HitMaterialization::StoredLanes,
        HitMaterialization::CompactMask,
    ] {
        let cover = edge_cover(1, 0);
        let mut expected = Vec::new();
        scan_scalar(&codes, &row_offsets, &cover, &mut expected);
        let mut got = Vec::new();
        scan_avx2_one_point(&codes, &row_offsets, &cover, true, hits, &mut got);
        assert_eq!(got, expected);

        let cover = edge_cover(5, 3);
        let mut expected = Vec::new();
        scan_scalar(&codes, &row_offsets, &cover, &mut expected);
        let mut got = Vec::new();
        scan_avx2_few(&codes, &row_offsets, &cover, false, hits, &mut got);
        assert_eq!(got, expected);
    }
    let cover = edge_cover(0, 1);
    let mut expected = Vec::new();
    scan_scalar(&codes, &row_offsets, &cover, &mut expected);
    let mut got = Vec::new();
    scan_avx2_one_range(&codes, &row_offsets, &cover, false, &mut got);
    assert_eq!(got, expected);
    for points in [1, 6, 8, 9, 16] {
        let cover = edge_cover(points, 0);
        let mut expected = Vec::new();
        scan_scalar(&codes, &row_offsets, &cover, &mut expected);
        let mut got = Vec::new();
        scan_avx2_nibble_points(&codes, &row_offsets, &cover, false, &mut got);
        assert_eq!(got, expected);
    }
    // A table below 4096 entries decides by three nibbles.
    let mut table = vec![false; 4096];
    for id in [0usize, 7, 0x123, 0x321, 0xfff] {
        table[id] = true;
    }
    let cover = ProbeCover::from_membership(table);
    let codes: Vec<Token> = (0..4096).collect();
    let row_offsets: Vec<u32> = (0..=4096).collect();
    let mut got = Vec::new();
    scan_avx2_nibble_points(&codes, &row_offsets, &cover, false, &mut got);
    assert_eq!(got, vec![0, 7, 0x123, 0x321, 0xfff]);
}

#[test]
fn packed_tables_hold_the_cover() {
    let cover = ProbeCover::from_runs(vec![run(3, 3), run(60, 130), run(200, 200), run(640, 700)]);
    let packed = pack_membership(&cover);
    assert_eq!(packed, pack_membership_dense(&cover));
    assert_eq!(packed[0], 1 << 3);
    for id in 0..32 * packed.len() {
        assert_eq!(
            packed[id / 32] >> (id % 32) & 1 == 1,
            cover.contains(id as Token)
        );
    }
}

#[test]
fn every_target_scans_alike() {
    let (codes, row_offsets) = input::<u32>();
    for (points, ranges) in [(0, 0), (1, 0), (0, 1), (3, 1), (12, 0), (17, 3)] {
        let cover = edge_cover(points, ranges);
        let mut expected = vec![usize::MAX];
        scan_scalar(&codes, &row_offsets, &cover, &mut expected);
        for covered in [0, 10, codes.len()] {
            for caps in [
                TargetCaps::Aarch64Neon,
                TargetCaps::X86_64 {
                    avx2: false,
                    avx512bw: false,
                },
                TargetCaps::X86_64 {
                    avx2: true,
                    avx512bw: false,
                },
                TargetCaps::X86_64 {
                    avx2: true,
                    avx512bw: true,
                },
            ] {
                let mut got = vec![usize::MAX];
                assert_eq!(
                    scan(&codes, &row_offsets, &cover, covered, caps, &mut got),
                    Ok(())
                );
                assert_eq!(got, expected);
            }
        }
        let mut got = vec![usize::MAX];
        let r = scan(
            &codes,
            &row_offsets,
            &cover,
            1,
            TargetCaps::Unsupported,
            &mut got,
        );
        if points + ranges == 0 {
            assert_eq!(r, Ok(()));
        } else {
            assert_eq!(r, Err(PrefilterError::UnsupportedArchitecture));
        }
        assert_eq!(got, vec![usize::MAX]);
    }
}

#[test]
fn wide_probe_cover_dispatches_soundly() {
    let pf = ProbeCover::new(vec![0; 33], Vec::new());
    let mut candidates = Vec::new();
    let caps = TargetCaps::X86_64 {
        avx2: true,
        avx512bw: false,
    };
    assert_eq!(
        scan(&[0u16], &[0u32, 1], &pf, 1, caps, &mut candidates),
        Ok(())
    );
    assert_eq!(candidates, vec![0]);
}

/// Each hit row is appended exactly once, ascending, however the hits fall
/// across vector blocks.
#[test]
fn each_hit_row_is_appended_once_in_order() {
    const HIT: Token = 1;
    const MISS: Token = 0;

    let rows: Vec<Vec<Token>> = vec![
        Vec::new(),            // empty, before any hit
        vec![HIT; 40],         // spans several blocks at every vector width
        Vec::new(),            // empty, between two hit rows
        vec![MISS; 40],        // no hit
        vec![MISS, MISS, HIT], // hit lands in the scalar tail
        Vec::new(),            // empty, after the last hit
    ];
    let mut codes = Vec::new();
    let mut row_offsets = vec![0u32];
    for row in &rows {
        codes.extend_from_slice(row);
        row_offsets.push(codes.len() as u32);
    }

    let pf = ProbeCover::from_runs(vec![run(1, 2)]);
    let mut oracle = Vec::new();
    scan_scalar(&codes, &row_offsets, &pf, &mut oracle);
    assert_eq!(oracle, vec![1, 4]);
    for caps in [
        TargetCaps::Aarch64Neon,
        TargetCaps::X86_64 {
            avx2: false,
            avx512bw: false,
        },
        TargetCaps::X86_64 {
            avx2: true,
            avx512bw: false,
        },
        TargetCaps::X86_64 {
            avx2: true,
            avx512bw: true,
        },
    ] {
        let mut out = Vec::new();
        assert_eq!(scan(&codes, &row_offsets, &pf, 43, caps, &mut out), Ok(()));
        assert_eq!(out, oracle);
    }
}

#[test]
fn tests_signed_bias_range_matches_unsigned() {
    fn in_range_biased(c: u16, lo: u16, hi: u16) -> bool {
        let cb = onpair::search::prefilter::scan::probe::biased(c);
        let lob = onpair::search::prefilter::scan::probe::biased(lo);
        let hib = onpair::search::prefilter::scan::probe::biased(hi);
        assert_eq!(cb, (c ^ 0x8000) as i16);
        !(lob > cb || cb > hib)
    }
    let bounds: &[(u16, u16)] = &[
        (0, 0),
        (0, u16::MAX),
        (0x7FFF, 0x8000),
        (0x8000, 0xFFFF),
        (0x00FF, 0xFF00),
        (1234, 1234),
        (40000, 50000),
    ];
    for &(lo, hi) in bounds {
        for c in 0..=u16::MAX {
            assert_eq!(
                in_range_biased(c, lo, hi),
                lo <= c && c <= hi,
                "c={c} lo={lo} hi={hi}"
            );
        }
    }
}

/// A row scan may give up pruning, and then appends every row that is left.
#[test]
fn a_row_scan_can_give_up() {
    let rows = 10_000usize;
    let codes: Vec<Token> = (0..rows).map(|r| if r < 5_000 { 1 } else { 0 }).collect();
    let row_offsets: Vec<u32> = (0..=rows as u32).collect();
    let cover = ProbeCover::new(vec![1], vec![]);
    let mut exact = Vec::new();
    scan_rows(&codes, &row_offsets, &cover, None, &mut exact);
    assert_eq!(exact, (0..5_000).collect::<Vec<_>>());
    let policy = BailPolicy {
        min_seen_divisor: 16,
        ratio_num: 9,
        ratio_den: 10,
    };
    let mut all = Vec::new();
    scan_rows(&codes, &row_offsets, &cover, Some(policy), &mut all);
    assert_eq!(all, (0..rows).collect::<Vec<_>>());
    let strict = BailPolicy {
        min_seen_divisor: 1,
        ratio_num: 9,
        ratio_den: 10,
    };
    let mut kept = Vec::new();
    scan_rows(&codes, &row_offsets, &cover, Some(strict), &mut kept);
    assert_eq!(kept, exact);
}

/// The AVX-512 kernels by shape, and the table that SSE2 falls back on.
#[test]
fn shaped_kernels_and_row_tables_match_scalar() {
    let (codes, row_offsets) = input::<u32>();
    for (points, ranges) in [(1, 0), (2, 0), (3, 0), (0, 1), (1, 1), (2, 1)] {
        let cover = edge_cover(points, ranges);
        let mut expected = vec![usize::MAX];
        scan_scalar(&codes, &row_offsets, &cover, &mut expected);
        assert!(expected.len() > 1);
        for shape in [None, Some(FixedShape::new(points, ranges))] {
            for sparse in [false, true] {
                let mut got = vec![usize::MAX];
                execute_avx512(&codes, &row_offsets, &cover, sparse, shape, &mut got);
                assert_eq!(got, expected);
            }
        }
        let mut got = vec![usize::MAX];
        scan_sse2_rows_table(&codes, &row_offsets, &cover, &mut got);
        assert_eq!(got, expected);
    }
}

/// A row layer may begin after the stream does and end before or after it, as
/// long as every hit lies in a row.
#[test]
fn rows_need_not_span_the_stream() {
    let mut codes: Vec<Token> = vec![1; 300];
    for at in [70usize, 130, 131, 250] {
        codes[at] = 9;
    }
    let cover = ProbeCover::new(vec![9 as Token], vec![]);
    for row_offsets in [vec![64u32, 100, 100, 200, 260], vec![64, 100, 100, 200, 5000]] {
        let mut linear = Vec::new();
        both_stages::<Table, LinearSeek, u32>(
            &cover,
            &codes,
            &row_offsets,
            &Check::Superset,
            &mut linear,
        );
        assert_eq!(linear, vec![0, 2, 3]);
        let mut galloped = Vec::new();
        both_stages::<Table, GallopSeek, u32>(
            &cover,
            &codes,
            &row_offsets,
            &Check::Superset,
            &mut galloped,
        );
        assert_eq!(galloped, linear);
    }
}
