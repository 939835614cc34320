//! Host-independent selection of a scan kernel.

use crate::search::prefilter::scan::probe::HitMaterialization;
use vstd::prelude::*;

verus! {

/// Shape of a normalized probe cover.
#[derive(Clone, Copy, Debug, Eq, PartialEq, Structural)]
pub struct CoverShape {
    pub points: usize,
    pub ranges: usize,
}

/// Comparisons per vector: one per point and two per range.
pub open spec fn cost_of_shape(points: int, ranges: int) -> int {
    points + 2 * ranges
}

/// No more than a machine word counts.
pub open spec fn clamped(n: int) -> int {
    if n > usize::MAX {
        usize::MAX as int
    } else {
        n
    }
}

impl CoverShape {
    pub fn is_empty(self) -> (r: bool)
        ensures
            r == (self.points == 0 && self.ranges == 0),
    {
        self.points == 0 && self.ranges == 0
    }

    /// Comparisons that each vector pays, saturating.
    pub fn comparison_cost(self) -> (r: usize)
        ensures
            r == (if self.points + 2 * self.ranges <= usize::MAX {
                self.points + 2 * self.ranges
            } else {
                usize::MAX as int
            }),
    {
        self.points.saturating_add(self.ranges.saturating_add(self.ranges))
    }
}

/// Stable facts produced by prefilter analysis.
#[derive(Clone, Copy, Debug, Eq, PartialEq, Structural)]
pub struct AnalysisFacts {
    pub shape: CoverShape,
    pub table_len: usize,
    pub covered_codes: usize,
    pub indexed_codes: usize,
}

/// Facts about the particular region being scanned.
#[derive(Clone, Copy, Debug, Eq, PartialEq, Structural)]
pub struct RegionFacts {
    pub code_count: usize,
    pub row_count: usize,
}

/// All data used to choose a kernel. No code values are inspected.
#[derive(Clone, Copy, Debug, Eq, PartialEq, Structural)]
pub struct ScanFacts {
    pub analysis: AnalysisFacts,
    pub region: RegionFacts,
}

/// Covered codes expected in a region: those of the index where the region is
/// the indexed population, and their projection to it otherwise.
pub open spec fn expected_covered(facts: ScanFacts) -> int {
    projected(
        facts.analysis.covered_codes as int,
        facts.analysis.indexed_codes as int,
        facts.region.code_count as int,
    )
}

/// `covered` of `total` codes, projected to `count` of them.
pub open spec fn projected(covered: int, total: int, count: int) -> int {
    if total == count {
        covered
    } else if total == 0 {
        0
    } else {
        clamped(covered * count / total)
    }
}

/// Covered codes expected in a region. Planning only, never correctness.
pub fn expected_hits(covered_frequency: usize, total_frequency: usize, code_count: usize) -> (r: usize)
    ensures
        r == projected(covered_frequency as int, total_frequency as int, code_count as int),
{
    if total_frequency == code_count {
        return covered_frequency;
    }
    if total_frequency == 0 {
        return 0;
    }
    proof {
        lemma_product(covered_frequency as int, code_count as int);
    }
    let product: u128 = (covered_frequency as u128) * (code_count as u128);
    let projected: u128 = product / (total_frequency as u128);
    if projected > usize::MAX as u128 {
        usize::MAX
    } else {
        projected as usize
    }
}

/// A product of two machine words fits two of them.
pub proof fn lemma_product(a: int, b: int)
    requires
        0 <= a <= u64::MAX,
        0 <= b <= u64::MAX,
    ensures
        0 <= a * b <= u128::MAX,
{
    assert(0 <= a * b <= u64::MAX * u64::MAX) by (nonlinear_arith)
        requires
            0 <= a <= u64::MAX,
            0 <= b <= u64::MAX,
    ;
}

/// The average number of codes in a row.
pub open spec fn row_len(facts: ScanFacts) -> int {
    if facts.region.row_count == 0 {
        0
    } else {
        facts.region.code_count as int / facts.region.row_count as int
    }
}

/// The covered share of the indexed codes is at least `num / den`.
pub open spec fn share_at_least(facts: ScanFacts, num: int, den: int) -> bool {
    facts.analysis.covered_codes * den >= facts.analysis.indexed_codes * num
}

impl ScanFacts {
    pub fn average_row_len(self) -> (r: usize)
        ensures
            r == row_len(self),
    {
        if self.region.row_count == 0 {
            0
        } else {
            self.region.code_count / self.region.row_count
        }
    }

    /// Expected covered codes in this region.
    pub fn expected_covered_codes(self) -> (r: usize)
        ensures
            r == expected_covered(self),
    {
        expected_hits(
            self.analysis.covered_codes,
            self.analysis.indexed_codes,
            self.region.code_count,
        )
    }

    pub fn covered_at_least(self, ratio: Ratio) -> (r: bool)
        ensures
            r == share_at_least(self, ratio.numerator as int, ratio.denominator as int),
    {
        ratio.at_most_fraction(self.analysis.covered_codes, self.analysis.indexed_codes)
    }

    pub fn covered_below(self, ratio: Ratio) -> (r: bool)
        ensures
            r == !share_at_least(self, ratio.numerator as int, ratio.denominator as int),
    {
        ratio.above_fraction(self.analysis.covered_codes, self.analysis.indexed_codes)
    }
}

/// An overflow-safe ratio used by scan policy.
#[derive(Clone, Copy, Debug, Eq, PartialEq, Structural)]
pub struct Ratio {
    pub numerator: u64,
    pub denominator: u64,
}

impl Ratio {
    pub fn new(numerator: u64, denominator: u64) -> (r: Ratio)
        requires
            denominator != 0,
        ensures
            r.numerator == numerator,
            r.denominator == denominator,
    {
        Ratio { numerator, denominator }
    }

    /// Whether the ratio is at most a fraction.
    pub fn at_most_fraction(self, numerator: usize, denominator: usize) -> (r: bool)
        ensures
            r == (numerator * self.denominator >= denominator * self.numerator),
    {
        proof {
            lemma_product(numerator as int, self.denominator as int);
            lemma_product(denominator as int, self.numerator as int);
        }
        (numerator as u128) * (self.denominator as u128) >= (denominator as u128) * (
        self.numerator as u128)
    }

    /// Whether the ratio is above a fraction.
    pub fn above_fraction(self, numerator: usize, denominator: usize) -> (r: bool)
        ensures
            r == (numerator * self.denominator < denominator * self.numerator),
    {
        proof {
            lemma_product(numerator as int, self.denominator as int);
            lemma_product(denominator as int, self.numerator as int);
        }
        (numerator as u128) * (self.denominator as u128) < (denominator as u128) * (
        self.numerator as u128)
    }
}

pub const SMALL_TABLE_LEN: usize = 4096;

pub const SMALL_TABLE_MAX_COST: usize = 10;

pub const LARGE_TABLE_MAX_COST: usize = 13;

pub const WIDE_COVER_COST: usize = 17;

pub const LONG_ROW_CODES: usize = 32;

pub const MEDIUM_ROW_CODES: usize = 8;

/// SIMD capabilities relevant to prefilter execution.
#[derive(Clone, Copy, Debug, Eq, PartialEq, Structural)]
pub enum TargetCaps {
    Aarch64Neon,
    X86_64 { avx2: bool, avx512bw: bool },
    Unsupported,
}

/// Candidate-row materialization policy.
#[derive(Clone, Copy, Debug, Eq, PartialEq, Structural)]
pub enum RowMapping {
    Linear,
    AdaptiveSparse,
}

impl RowMapping {
    pub fn uses_sparse_gaps(self) -> (r: bool)
        ensures
            r == (self == RowMapping::AdaptiveSparse),
    {
        match self {
            RowMapping::AdaptiveSparse => true,
            RowMapping::Linear => false,
        }
    }
}

/// A specialization for a number of points and ranges.
#[derive(Clone, Copy, Debug, Eq, PartialEq, Structural)]
pub struct FixedShape {
    pub points: usize,
    pub ranges: usize,
}

impl FixedShape {
    pub fn new(points: usize, ranges: usize) -> (r: FixedShape)
        ensures
            r == (FixedShape { points, ranges }),
    {
        FixedShape { points, ranges }
    }
}

#[derive(Clone, Copy, Debug, Eq, PartialEq, Structural)]
pub enum NeonKernel {
    FewPoints { points: usize },
    ManyPoints,
    OneRange,
    Fixed(FixedShape),
    OnePointTwoRanges,
    FewMixed,
    Generic { two_vectors: bool },
}

#[derive(Clone, Copy, Debug, Eq, PartialEq, Structural)]
pub enum Sse2Kernel {
    OnePoint,
    Fixed(FixedShape),
    CodesTable,
    Generic,
}

#[derive(Clone, Copy, Debug, Eq, PartialEq, Structural)]
pub enum Avx2Kernel {
    OnePoint { hits: HitMaterialization },
    OneRange,
    Fixed(FixedShape),
    NibblePoints,
    Few { hits: HitMaterialization },
    Gather,
}

#[derive(Clone, Copy, Debug, Eq, PartialEq, Structural)]
pub enum Avx512Kernel {
    Generic,
}

#[derive(Clone, Copy, Debug, Eq, PartialEq, Structural)]
pub enum Kernel {
    Empty,
    RowsTable,
    Neon(NeonKernel),
    Sse2(Sse2Kernel),
    Avx2(Avx2Kernel),
    Avx512(Avx512Kernel),
    Unsupported,
}

/// Complete, ephemeral execution plan for one scan region.
#[derive(Clone, Copy, Debug, Eq, PartialEq, Structural)]
pub struct KernelPlan {
    pub kernel: Kernel,
    pub row_mapping: RowMapping,
    pub reserve: usize,
}

/// The shapes with a fixed SSE2 kernel.
pub open spec fn sse2_fixed(points: int, ranges: int) -> bool {
    ||| points == 0 && ranges == 1
    ||| points == 2 && ranges == 0
    ||| points == 3 && ranges == 0
    ||| points == 1 && ranges == 1
    ||| points == 4 && ranges == 0
    ||| points == 2 && ranges == 1
    ||| points == 5 && ranges == 0
    ||| points == 0 && ranges == 2
    ||| points == 1 && ranges == 2
    ||| points == 3 && ranges == 1
    ||| points == 6 && ranges == 0
    ||| points == 4 && ranges == 1
    ||| points == 2 && ranges == 2
    ||| points == 0 && ranges == 3
    ||| points == 3 && ranges == 2
    ||| points == 1 && ranges == 3
    ||| points == 4 && ranges == 2
}

/// The shapes with a fixed AVX2 kernel.
pub open spec fn avx2_fixed(points: int, ranges: int) -> bool {
    ||| points == 2 && ranges == 0
    ||| points == 3 && ranges == 0
    ||| points == 1 && ranges == 1
    ||| points == 2 && ranges == 1
    ||| points == 1 && ranges == 2
    ||| points == 4 && ranges == 0
    ||| points == 5 && ranges == 0
    ||| points == 6 && ranges == 0
    ||| points == 0 && ranges == 2
    ||| points == 3 && ranges == 1
    ||| points == 4 && ranges == 1
    ||| points == 3 && ranges == 2
    ||| points == 2 && ranges == 2
    ||| points == 0 && ranges == 3
    ||| points == 1 && ranges == 3
    ||| points == 2 && ranges == 3
    ||| points == 5 && ranges == 1
    ||| points == 4 && ranges == 2
    ||| points == 6 && ranges == 1
    ||| points == 3 && ranges == 3
    ||| points == 5 && ranges == 2
    ||| points == 7 && ranges == 1
    ||| points == 6 && ranges == 2
    ||| points == 8 && ranges == 1
}

/// The NEON kernel of a shape.
pub open spec fn neon_kernel(points: int, ranges: int) -> NeonKernel {
    if points == 0 && ranges == 1 {
        NeonKernel::OneRange
    } else if (points == 1 || points == 2) && ranges == 1 {
        NeonKernel::Fixed(FixedShape { points: points as usize, ranges: ranges as usize })
    } else if points == 1 && ranges == 2 {
        NeonKernel::OnePointTwoRanges
    } else if ranges != 0 && cost_of_shape(points, ranges) <= 16 {
        NeonKernel::FewMixed
    } else if 1 <= points <= 8 && ranges == 0 {
        NeonKernel::FewPoints { points: points as usize }
    } else if 9 <= points <= 16 && ranges == 0 {
        NeonKernel::ManyPoints
    } else {
        NeonKernel::Generic {
            two_vectors: (points == 1 && ranges != 0) || (points == 2 && ranges == 1),
        }
    }
}

/// The widest comparison that pays for a table of this length.
pub open spec fn widest(table_len: int) -> int {
    if table_len <= SMALL_TABLE_LEN {
        SMALL_TABLE_MAX_COST as int
    } else {
        LARGE_TABLE_MAX_COST as int
    }
}

/// Long rows that mostly hold a covered code.
pub open spec fn dense_rows(facts: ScanFacts) -> bool {
    facts.region.row_count != 0 && row_len(facts) >= LONG_ROW_CODES && expected_covered(facts)
        >= facts.region.row_count
}

/// Comparisons of a cover, saturating.
pub open spec fn cost(facts: ScanFacts) -> int {
    clamped(
        cost_of_shape(facts.analysis.shape.points as int, facts.analysis.shape.ranges as int),
    )
}

/// The SSE2 policy walks each row.
pub open spec fn sse2_by_rows(facts: ScanFacts) -> bool {
    ||| dense_rows(facts) && cost(facts) > widest(facts.analysis.table_len as int)
    ||| cost(facts) >= WIDE_COVER_COST && (share_at_least(facts, 1, 20) || (
    facts.region.row_count != 0 && row_len(facts) >= MEDIUM_ROW_CODES && share_at_least(
        facts,
        3,
        100,
    )))
}

/// The SSE2 kernel of a shape.
pub open spec fn sse2_kernel(points: int, ranges: int) -> Sse2Kernel {
    if points == 1 && ranges == 0 {
        Sse2Kernel::OnePoint
    } else if sse2_fixed(points, ranges) {
        Sse2Kernel::Fixed(FixedShape { points: points as usize, ranges: ranges as usize })
    } else if clamped(cost_of_shape(points, ranges)) >= WIDE_COVER_COST {
        Sse2Kernel::CodesTable
    } else {
        Sse2Kernel::Generic
    }
}

/// Hits are packed where enough codes are covered.
pub open spec fn packed_from(facts: ScanFacts, num: int, den: int) -> HitMaterialization {
    if share_at_least(facts, num, den) {
        HitMaterialization::CompactMask
    } else {
        HitMaterialization::StoredLanes
    }
}

/// The AVX2 policy.
pub open spec fn avx2_kernel(facts: ScanFacts) -> Kernel {
    let points = facts.analysis.shape.points as int;
    let ranges = facts.analysis.shape.ranges as int;
    let small = facts.analysis.table_len <= SMALL_TABLE_LEN;
    if dense_rows(facts) && cost(facts) > widest(facts.analysis.table_len as int) {
        Kernel::RowsTable
    } else if ranges == 0 && ((9 <= points <= 16 && small) || 10 <= points <= 16 || 7 <= points <= 8
        || (points == 6 && small && !share_at_least(facts, 1, 100))) {
        Kernel::Avx2(Avx2Kernel::NibblePoints)
    } else if points == 1 && ranges == 0 {
        Kernel::Avx2(Avx2Kernel::OnePoint { hits: packed_from(facts, 7, 10_000) })
    } else if points == 0 && ranges == 1 {
        Kernel::Avx2(Avx2Kernel::OneRange)
    } else if avx2_fixed(points, ranges) {
        Kernel::Avx2(
            Avx2Kernel::Fixed(FixedShape { points: points as usize, ranges: ranges as usize }),
        )
    } else if cost(facts) <= widest(facts.analysis.table_len as int) {
        Kernel::Avx2(Avx2Kernel::Few { hits: packed_from(facts, 1, 2_000) })
    } else {
        Kernel::Avx2(Avx2Kernel::Gather)
    }
}

/// The x86-64 policy: AVX-512 first, then AVX2, then SSE2.
pub open spec fn x86_kernel(facts: ScanFacts, avx2: bool, avx512bw: bool) -> Kernel {
    if avx512bw {
        Kernel::Avx512(Avx512Kernel::Generic)
    } else if avx2 {
        avx2_kernel(facts)
    } else if sse2_by_rows(facts) {
        Kernel::RowsTable
    } else {
        Kernel::Sse2(
            sse2_kernel(
                facts.analysis.shape.points as int,
                facts.analysis.shape.ranges as int,
            ),
        )
    }
}

/// The kernel of a target.
pub open spec fn kernel_for(caps: TargetCaps, facts: ScanFacts) -> Kernel {
    let points = facts.analysis.shape.points as int;
    let ranges = facts.analysis.shape.ranges as int;
    if points == 0 && ranges == 0 {
        Kernel::Empty
    } else {
        match caps {
            TargetCaps::Aarch64Neon => Kernel::Neon(neon_kernel(points, ranges)),
            TargetCaps::X86_64 { avx2, avx512bw } => x86_kernel(facts, avx2, avx512bw),
            TargetCaps::Unsupported => Kernel::Unsupported,
        }
    }
}

/// Hits are mapped to rows by search where they are rare.
pub open spec fn mapping_for(facts: ScanFacts) -> RowMapping {
    if facts.analysis.shape.points == 0 && facts.analysis.shape.ranges == 0 {
        RowMapping::Linear
    } else if facts.region.code_count == 0 || !share_at_least(facts, 1, 10_000) {
        RowMapping::AdaptiveSparse
    } else {
        RowMapping::Linear
    }
}

/// The rows to make room for.
pub open spec fn reserve_for(caps: TargetCaps, facts: ScanFacts) -> int {
    if facts.analysis.shape.points == 0 && facts.analysis.shape.ranges == 0 {
        0
    } else if caps is X86_64 {
        if expected_covered(facts) < facts.region.row_count {
            expected_covered(facts)
        } else {
            facts.region.row_count as int
        }
    } else {
        0
    }
}

/// Selects a kernel without inspecting code values.
pub fn select_kernel(caps: TargetCaps, facts: ScanFacts) -> (r: KernelPlan)
    ensures
        r.kernel == kernel_for(caps, facts),
        r.row_mapping == mapping_for(facts),
        r.reserve == reserve_for(caps, facts),
{
    if facts.analysis.shape.is_empty() {
        return KernelPlan { kernel: Kernel::Empty, row_mapping: RowMapping::Linear, reserve: 0 };
    }
    let row_mapping: RowMapping = if facts.region.code_count == 0 || facts.covered_below(
        Ratio::new(1, 10_000),
    ) {
        RowMapping::AdaptiveSparse
    } else {
        RowMapping::Linear
    };
    match caps {
        TargetCaps::Aarch64Neon => KernelPlan {
            kernel: Kernel::Neon(select_neon(facts.analysis.shape)),
            row_mapping,
            reserve: 0,
        },
        TargetCaps::X86_64 { avx2, avx512bw } => select_x86_64(facts, row_mapping, avx2, avx512bw),
        TargetCaps::Unsupported => KernelPlan {
            kernel: Kernel::Unsupported,
            row_mapping,
            reserve: 0,
        },
    }
}

pub fn select_neon(shape: CoverShape) -> (r: NeonKernel)
    ensures
        r == neon_kernel(shape.points as int, shape.ranges as int),
{
    let p: usize = shape.points;
    let r: usize = shape.ranges;
    if p == 0 && r == 1 {
        NeonKernel::OneRange
    } else if (p == 1 || p == 2) && r == 1 {
        NeonKernel::Fixed(FixedShape::new(p, r))
    } else if p == 1 && r == 2 {
        NeonKernel::OnePointTwoRanges
    } else if r != 0 && p <= 16 && r <= 8 && p + 2 * r <= 16 {
        NeonKernel::FewMixed
    } else if 1 <= p && p <= 8 && r == 0 {
        NeonKernel::FewPoints { points: p }
    } else if 9 <= p && p <= 16 && r == 0 {
        NeonKernel::ManyPoints
    } else {
        NeonKernel::Generic { two_vectors: (p == 1 && r != 0) || (p == 2 && r == 1) }
    }
}

fn select_x86_64(facts: ScanFacts, row_mapping: RowMapping, avx2: bool, avx512bw: bool) -> (r:
    KernelPlan)
    ensures
        r.kernel == x86_kernel(facts, avx2, avx512bw),
        r.row_mapping == row_mapping,
        r.reserve == if expected_covered(facts) < facts.region.row_count {
            expected_covered(facts)
        } else {
            facts.region.row_count as int
        },
{
    let expected: usize = facts.expected_covered_codes();
    let reserve: usize = if expected < facts.region.row_count {
        expected
    } else {
        facts.region.row_count
    };
    let kernel: Kernel = if avx512bw {
        Kernel::Avx512(Avx512Kernel::Generic)
    } else if avx2 {
        select_avx2(facts)
    } else if use_sse2_rows_table(facts) {
        Kernel::RowsTable
    } else {
        Kernel::Sse2(select_sse2(facts.analysis.shape))
    };
    KernelPlan { kernel, row_mapping, reserve }
}

fn max_compare_cost(table_len: usize) -> (r: usize)
    ensures
        r == widest(table_len as int),
{
    if table_len <= SMALL_TABLE_LEN {
        SMALL_TABLE_MAX_COST
    } else {
        LARGE_TABLE_MAX_COST
    }
}

fn base_rows_table(facts: ScanFacts) -> (r: bool)
    ensures
        r == dense_rows(facts),
{
    facts.region.row_count != 0 && facts.average_row_len() >= LONG_ROW_CODES
        && facts.expected_covered_codes() >= facts.region.row_count
}

fn use_sse2_rows_table(facts: ScanFacts) -> (r: bool)
    ensures
        r == sse2_by_rows(facts),
{
    let cost: usize = facts.analysis.shape.comparison_cost();
    (base_rows_table(facts) && cost > max_compare_cost(facts.analysis.table_len)) || (cost
        >= WIDE_COVER_COST && (facts.covered_at_least(Ratio::new(1, 20)) || (
    facts.region.row_count != 0 && facts.average_row_len() >= MEDIUM_ROW_CODES
        && facts.covered_at_least(Ratio::new(3, 100)))))
}

fn select_sse2(shape: CoverShape) -> (r: Sse2Kernel)
    ensures
        r == sse2_kernel(shape.points as int, shape.ranges as int),
{
    if shape.points == 1 && shape.ranges == 0 {
        return Sse2Kernel::OnePoint;
    }
    if is_sse2_fixed(shape) {
        return Sse2Kernel::Fixed(FixedShape::new(shape.points, shape.ranges));
    }
    if shape.comparison_cost() >= WIDE_COVER_COST {
        Sse2Kernel::CodesTable
    } else {
        Sse2Kernel::Generic
    }
}

fn is_sse2_fixed(shape: CoverShape) -> (b: bool)
    ensures
        b == sse2_fixed(shape.points as int, shape.ranges as int),
{
    let p: usize = shape.points;
    let r: usize = shape.ranges;
    (p == 0 && r == 1)
        || (p == 2 && r == 0)
        || (p == 3 && r == 0)
        || (p == 1 && r == 1)
        || (p == 4 && r == 0)
        || (p == 2 && r == 1)
        || (p == 5 && r == 0)
        || (p == 0 && r == 2)
        || (p == 1 && r == 2)
        || (p == 3 && r == 1)
        || (p == 6 && r == 0)
        || (p == 4 && r == 1)
        || (p == 2 && r == 2)
        || (p == 0 && r == 3)
        || (p == 3 && r == 2)
        || (p == 1 && r == 3)
        || (p == 4 && r == 2)
}

pub fn select_avx2(facts: ScanFacts) -> (r: Kernel)
    ensures
        r == avx2_kernel(facts),
{
    let shape: CoverShape = facts.analysis.shape;
    let widest: usize = max_compare_cost(facts.analysis.table_len);
    if base_rows_table(facts) && shape.comparison_cost() > widest {
        return Kernel::RowsTable;
    }
    let p: usize = shape.points;
    let r: usize = shape.ranges;
    let small: bool = facts.analysis.table_len <= SMALL_TABLE_LEN;
    let nibbles: bool = r == 0 && ((9 <= p && p <= 16 && small) || (10 <= p && p <= 16) || (7 <= p
        && p <= 8) || (p == 6 && small && facts.covered_below(Ratio::new(1, 100))));
    let leaf: Avx2Kernel = if nibbles {
        Avx2Kernel::NibblePoints
    } else if p == 1 && r == 0 {
        Avx2Kernel::OnePoint {
            hits: if facts.covered_at_least(Ratio::new(7, 10_000)) {
                HitMaterialization::CompactMask
            } else {
                HitMaterialization::StoredLanes
            },
        }
    } else if p == 0 && r == 1 {
        Avx2Kernel::OneRange
    } else if is_avx2_fixed(shape) {
        Avx2Kernel::Fixed(FixedShape::new(p, r))
    } else if shape.comparison_cost() <= widest {
        Avx2Kernel::Few {
            hits: if facts.covered_at_least(Ratio::new(1, 2_000)) {
                HitMaterialization::CompactMask
            } else {
                HitMaterialization::StoredLanes
            },
        }
    } else {
        Avx2Kernel::Gather
    };
    Kernel::Avx2(leaf)
}

fn is_avx2_fixed(shape: CoverShape) -> (b: bool)
    ensures
        b == avx2_fixed(shape.points as int, shape.ranges as int),
{
    let p: usize = shape.points;
    let r: usize = shape.ranges;
    (p == 2 && r == 0)
        || (p == 3 && r == 0)
        || (p == 1 && r == 1)
        || (p == 2 && r == 1)
        || (p == 1 && r == 2)
        || (p == 4 && r == 0)
        || (p == 5 && r == 0)
        || (p == 6 && r == 0)
        || (p == 0 && r == 2)
        || (p == 3 && r == 1)
        || (p == 4 && r == 1)
        || (p == 3 && r == 2)
        || (p == 2 && r == 2)
        || (p == 0 && r == 3)
        || (p == 1 && r == 3)
        || (p == 2 && r == 3)
        || (p == 5 && r == 1)
        || (p == 4 && r == 2)
        || (p == 6 && r == 1)
        || (p == 3 && r == 3)
        || (p == 5 && r == 2)
        || (p == 7 && r == 1)
        || (p == 6 && r == 2)
        || (p == 8 && r == 1)
}

/// A cover without a probe costs nothing, a point more costs one comparison
/// more, and a range more costs two.
pub proof fn lemma_comparisons_add_up(points: int, ranges: int)
    ensures
        cost_of_shape(0, 0) == 0,
        cost_of_shape(points + 1, ranges) == cost_of_shape(points, ranges) + 1,
        cost_of_shape(points, ranges + 1) == cost_of_shape(points, ranges) + 2,
{
}

/// What a machine word holds is kept, and the largest word stands for more.
pub proof fn lemma_clamped_keeps_words(n: int)
    ensures
        n <= usize::MAX ==> clamped(n) == n,
        n >= usize::MAX ==> clamped(n) == usize::MAX,
{
}

/// The hits expected of the indexed stream itself are those of the index; of
/// another they are in proportion to its length, rounded down, as far as a
/// machine word counts. An empty index predicts none.
pub proof fn lemma_projection_is_in_proportion(covered: int, total: int, count: int)
    requires
        covered >= 0,
        total >= 0,
        count >= 0,
    ensures
        total == count ==> projected(covered, total, count) == covered,
        total == 0 && count > 0 ==> projected(covered, total, count) == 0,
        total > 0 && total != count ==> {
            let hits = projected(covered, total, count);
            &&& 0 <= hits <= usize::MAX
            &&& hits * total <= covered * count
            &&& hits < usize::MAX ==> covered * count < (hits + 1) * total
        },
{
    if total > 0 && total != count {
        let q = covered * count / total;
        assert(covered * count >= 0) by (nonlinear_arith)
            requires
                covered >= 0,
                count >= 0,
        ;
        vstd::arithmetic::div_mod::lemma_fundamental_div_mod(covered * count, total);
        vstd::arithmetic::div_mod::lemma_div_pos_is_pos(covered * count, total);
        assert(total * q == q * total) by (nonlinear_arith);
        assert((q + 1) * total == q * total + total) by (nonlinear_arith);
        if q > usize::MAX {
            assert(usize::MAX * total <= q * total) by (nonlinear_arith)
                requires
                    q > usize::MAX,
                    total > 0,
            ;
        }
    }
}

/// The average row has as many codes as all rows hold, shared out and rounded
/// down, and none where there are no rows.
pub proof fn lemma_average_row_shares_out(facts: ScanFacts)
    ensures
        facts.region.row_count == 0 ==> row_len(facts) == 0,
        facts.region.row_count > 0 ==> row_len(facts) * facts.region.row_count
            <= facts.region.code_count < (row_len(facts) + 1) * facts.region.row_count,
        expected_covered(facts) == projected(
            facts.analysis.covered_codes as int,
            facts.analysis.indexed_codes as int,
            facts.region.code_count as int,
        ),
{
    if facts.region.row_count > 0 {
        let rows = facts.region.row_count as int;
        let q = row_len(facts);
        vstd::arithmetic::div_mod::lemma_fundamental_div_mod(facts.region.code_count as int, rows);
        assert(rows * q == q * rows) by (nonlinear_arith);
        assert((q + 1) * rows == q * rows + rows) by (nonlinear_arith);
    }
}

/// Hits are looked up by search where the stream is empty or fewer than one
/// indexed code in ten thousand is covered. Room is made on x86-64 alone, for
/// the expected hits or all rows, whichever is less. A cover without a probe is
/// mapped in line and needs no room.
pub proof fn lemma_mapping_and_room(caps: TargetCaps, facts: ScanFacts)
    ensures
        mapping_for(facts) == RowMapping::AdaptiveSparse <==> (facts.analysis.shape.points > 0
            || facts.analysis.shape.ranges > 0) && (facts.region.code_count == 0 || 10000
            * facts.analysis.covered_codes < facts.analysis.indexed_codes),
        facts.analysis.shape.points == 0 && facts.analysis.shape.ranges == 0 ==> reserve_for(
            caps,
            facts,
        ) == 0,
        !(caps is X86_64) ==> reserve_for(caps, facts) == 0,
        caps is X86_64 && (facts.analysis.shape.points > 0 || facts.analysis.shape.ranges > 0) ==> {
            let room = reserve_for(caps, facts);
            let expected = expected_covered(facts);
            &&& room <= expected
            &&& room <= facts.region.row_count
            &&& room == expected || room == facts.region.row_count
        },
{
}

/// A cover without a probe needs no kernel on any target, and only such a cover
/// needs none. Without vector units there is none for the others. AVX-512 goes
/// before AVX2, and AVX2 before SSE2.
pub proof fn lemma_targets_in_order(caps: TargetCaps, facts: ScanFacts, avx2: bool)
    ensures
        kernel_for(caps, facts) is Empty <==> facts.analysis.shape.points == 0
            && facts.analysis.shape.ranges == 0,
        facts.analysis.shape.points > 0 || facts.analysis.shape.ranges > 0 ==> {
            &&& kernel_for(TargetCaps::Unsupported, facts) is Unsupported
            &&& kernel_for(TargetCaps::Aarch64Neon, facts) is Neon
            &&& kernel_for(TargetCaps::X86_64 { avx2, avx512bw: true }, facts) is Avx512
            &&& kernel_for(TargetCaps::X86_64 { avx2: true, avx512bw: false }, facts) is Avx2
                || kernel_for(
                TargetCaps::X86_64 { avx2: true, avx512bw: false },
                facts,
            ) is RowsTable
            &&& kernel_for(TargetCaps::X86_64 { avx2: false, avx512bw: false }, facts) is Sse2
                || kernel_for(
                TargetCaps::X86_64 { avx2: false, avx512bw: false },
                facts,
            ) is RowsTable
        },
{
}

/// The NEON kernels by the shape of the cover: one range; one or two points
/// beside one range; one point beside two ranges; else, of covers with a range,
/// those of at most 16 comparisons; of points alone, up to 8 and up to 16; and
/// the general kernel for all others, over two vectors where one point stands
/// beside ranges.
pub proof fn lemma_neon_by_shape(p: int, r: int)
    requires
        0 <= p <= usize::MAX,
        0 <= r <= usize::MAX,
        p > 0 || r > 0,
    ensures
        neon_kernel(p, r) is OneRange <==> p == 0 && r == 1,
        neon_kernel(p, r) is Fixed <==> 1 <= p <= 2 && r == 1,
        neon_kernel(p, r) matches NeonKernel::Fixed(s) ==> s.points == p && s.ranges == r,
        neon_kernel(p, r) is OnePointTwoRanges <==> p == 1 && r == 2,
        neon_kernel(p, r) is FewMixed <==> r >= 1 && p + 2 * r <= 16 && !(p <= 2 && r == 1) && !(p
            == 1 && r == 2),
        neon_kernel(p, r) is FewPoints <==> r == 0 && 1 <= p <= 8,
        neon_kernel(p, r) matches NeonKernel::FewPoints { points } ==> points == p,
        neon_kernel(p, r) is ManyPoints <==> r == 0 && 9 <= p <= 16,
        neon_kernel(p, r) is Generic <==> p + 2 * r > 16,
        neon_kernel(p, r) matches NeonKernel::Generic { two_vectors } ==> (two_vectors <==> p == 1
            && r > 0),
{
}

/// The fixed shapes: from two comparisons on, with up to three ranges, and the
/// fewer points the more ranges.
pub proof fn lemma_fixed_shapes(p: int, r: int)
    requires
        p >= 0,
        r >= 0,
    ensures
        sse2_fixed(p, r) <==> (r == 0 && 2 <= p <= 6) || (r == 1 && p <= 4) || (r == 2 && p <= 4)
            || (r == 3 && p <= 1),
        avx2_fixed(p, r) <==> (r == 0 && 2 <= p <= 6) || (r == 1 && 1 <= p <= 8) || (r == 2 && p
            <= 6) || (r == 3 && p <= 3),
{
}

/// Rows are walked on SSE2 where rows of 32 codes or more on average are
/// expected to hold a hit each and the cover takes more than 10 comparisons, or
/// 13 with a table past 4096 entries; and where a cover of 17 comparisons or
/// more covers one code in twenty, or three in a hundred with rows of 8 codes
/// or more. Else one point and the fixed shapes have kernels of their own, 17
/// comparisons or more read the table, and fewer compare.
pub proof fn lemma_sse2_by_facts(facts: ScanFacts)
    requires
        facts.analysis.shape.points > 0 || facts.analysis.shape.ranges > 0,
    ensures
        ({
            let p = facts.analysis.shape.points as int;
            let r = facts.analysis.shape.ranges as int;
            let rows = facts.region.row_count as int;
            let codes = facts.region.code_count as int;
            let full = rows > 0 && codes >= 32 * rows && expected_covered(facts) >= rows;
            let wide = p + 2 * r > (if facts.analysis.table_len <= 4096 {
                10int
            } else {
                13int
            });
            let dense = 20 * facts.analysis.covered_codes >= facts.analysis.indexed_codes || (rows
                > 0 && codes >= 8 * rows && 100 * facts.analysis.covered_codes >= 3
                * facts.analysis.indexed_codes);
            let by_rows = (full && wide) || (p + 2 * r >= 17 && dense);
            let kernel = kernel_for(TargetCaps::X86_64 { avx2: false, avx512bw: false }, facts);
            &&& kernel is RowsTable <==> by_rows
            &&& !by_rows ==> kernel is Sse2
            &&& !by_rows ==> (kernel->Sse2_0 is OnePoint <==> p == 1 && r == 0)
            &&& !by_rows ==> (kernel->Sse2_0 is Fixed <==> sse2_fixed(p, r))
            &&& !by_rows && sse2_fixed(p, r) ==> kernel->Sse2_0->Fixed_0.points == p
                && kernel->Sse2_0->Fixed_0.ranges == r
            &&& !by_rows ==> (kernel->Sse2_0 is CodesTable <==> p + 2 * r >= 17)
        }),
{
    lemma_row_thresholds(facts);
}

proof fn lemma_row_thresholds(facts: ScanFacts)
    ensures
        facts.region.row_count > 0 ==> (row_len(facts) >= 32 <==> facts.region.code_count >= 32
            * facts.region.row_count),
        facts.region.row_count > 0 ==> (row_len(facts) >= 8 <==> facts.region.code_count >= 8
            * facts.region.row_count),
{
    lemma_average_row_shares_out(facts);
    let rows = facts.region.row_count as int;
    let q = row_len(facts);
    if rows > 0 {
        if q >= 32 {
            assert(32 * rows <= q * rows) by (nonlinear_arith)
                requires
                    q >= 32,
                    rows > 0,
            ;
        } else {
            assert((q + 1) * rows <= 32 * rows) by (nonlinear_arith)
                requires
                    q < 32,
                    rows > 0,
            ;
        }
        if q >= 8 {
            assert(8 * rows <= q * rows) by (nonlinear_arith)
                requires
                    q >= 8,
                    rows > 0,
            ;
        } else {
            assert((q + 1) * rows <= 8 * rows) by (nonlinear_arith)
                requires
                    q < 8,
                    rows > 0,
            ;
        }
    }
}

/// Rows are walked on AVX2 where rows of 32 codes or more on average are
/// expected to hold a hit each and the cover takes more than 10 comparisons, or
/// 13 with a table past 4096 entries. Else points alone are looked up by
/// nibbles from 7 to 16 of them, but for 9 with a large table, and 6 with a
/// small table of which less than a hundredth of the codes is covered; one
/// point, one range and the fixed shapes have kernels of their own; and of the
/// others those within the limit compare, the rest gathers. Hits are packed for
/// one point from seven covered codes in ten thousand on, for few comparisons
/// from one in two thousand on.
pub proof fn lemma_avx2_by_facts(facts: ScanFacts)
    requires
        facts.analysis.shape.points > 0 || facts.analysis.shape.ranges > 0,
    ensures
        ({
            let p = facts.analysis.shape.points as int;
            let r = facts.analysis.shape.ranges as int;
            let rows = facts.region.row_count as int;
            let codes = facts.region.code_count as int;
            let covered = facts.analysis.covered_codes;
            let indexed = facts.analysis.indexed_codes;
            let small = facts.analysis.table_len <= 4096;
            let limit = if small {
                10int
            } else {
                13int
            };
            let full = rows > 0 && codes >= 32 * rows && expected_covered(facts) >= rows;
            let by_rows = full && p + 2 * r > limit;
            let nibbles = r == 0 && 6 <= p <= 16 && (p == 6 ==> small && 100 * covered < indexed)
                && (p == 9 ==> small);
            let kernel = kernel_for(TargetCaps::X86_64 { avx2: true, avx512bw: false }, facts);
            &&& kernel is RowsTable <==> by_rows
            &&& !by_rows ==> kernel is Avx2
            &&& !by_rows ==> (kernel->Avx2_0 is NibblePoints <==> nibbles)
            &&& !by_rows ==> (kernel->Avx2_0 is OnePoint <==> p == 1 && r == 0)
            &&& !by_rows && p == 1 && r == 0 ==> (kernel->Avx2_0->OnePoint_hits
                == HitMaterialization::CompactMask <==> 10000 * covered >= 7 * indexed)
            &&& !by_rows ==> (kernel->Avx2_0 is OneRange <==> p == 0 && r == 1)
            &&& !by_rows ==> (kernel->Avx2_0 is Fixed <==> avx2_fixed(p, r) && !nibbles)
            &&& !by_rows && kernel->Avx2_0 is Fixed ==> kernel->Avx2_0->Fixed_0.points == p
                && kernel->Avx2_0->Fixed_0.ranges == r
            &&& !by_rows ==> (kernel->Avx2_0 is Few <==> p + 2 * r <= limit && !nibbles
                && !avx2_fixed(p, r) && !(p == 1 && r == 0) && !(p == 0 && r == 1))
            &&& !by_rows && kernel->Avx2_0 is Few ==> (kernel->Avx2_0->Few_hits
                == HitMaterialization::CompactMask <==> 2000 * covered >= indexed)
        }),
{
    lemma_row_thresholds(facts);
}

/// Shares are compared by cross multiplication.
pub proof fn lemma_shares_cross_multiply(facts: ScanFacts, num: int, den: int)
    ensures
        share_at_least(facts, num, den) <==> num * facts.analysis.indexed_codes <= den
            * facts.analysis.covered_codes,
{
    assert(num * facts.analysis.indexed_codes == facts.analysis.indexed_codes * num)
        by (nonlinear_arith);
    assert(den * facts.analysis.covered_codes == facts.analysis.covered_codes * den)
        by (nonlinear_arith);
}

} // verus!
