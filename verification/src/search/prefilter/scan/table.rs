//! Exact membership-table scans, and the packed tables of the gathering scan.

use crate::rows::{bounds, count_rows, delimits, row_count, rows_ok, selected_rows, span, Offset};
use crate::search::prefilter::cover::ProbeCover;
use crate::search::prefilter::scan::policy::lemma_product;
use crate::search::prefilter::scan::probe::Probe;
use crate::search::prefilter::scan::sink::{has_hit, hits, rows_with, scan_tail, RowSink};
use crate::search::prefilter::scan::words::{
    add_id, holds_id, lemma_no_ids, lemma_shifts, lemma_words, test_id, word_bit,
};
use crate::types::{Token, TokenRange, MAX_TOKENS};
use vstd::prelude::*;

verus! {

/// Scans row by row and stops at the first covered code of each row.
pub fn scan_rows_table<O: Offset>(
    codes: &[Token],
    row_offsets: &[O],
    cover: &ProbeCover,
    out: &mut Vec<usize>,
)
    requires
        cover.wf(),
        rows_ok(bounds(row_offsets@), codes@.len() as int),
    ensures
        final(out)@ == old(out)@ + selected_rows(
            row_count(bounds(row_offsets@)),
            rows_with(bounds(row_offsets@), hits(cover, codes@)),
        ),
{
    let ghost b = bounds(row_offsets@);
    let ghost p = hits(cover, codes@);
    let ghost q = rows_with(b, p);
    let n: usize = codes.len();
    let rows: usize = count_rows(row_offsets);
    let mut row: usize = 0;
    assert(out@ =~= old(out)@ + selected_rows(0, q));
    while row < rows
        invariant
            cover.wf(),
            n == codes@.len(),
            b == bounds(row_offsets@),
            p == hits(cover, codes@),
            q == rows_with(b, p),
            rows_ok(b, n as int),
            rows == row_count(b),
            row <= rows,
            out@ == old(out)@ + selected_rows(row as nat, q),
        decreases rows - row,
    {
        let (begin, end) = span(row_offsets, row, Ghost(n as int));
        let mut at: usize = begin;
        let mut found: bool = false;
        while at < end && !found
            invariant
                cover.wf(),
                n == codes@.len(),
                p == hits(cover, codes@),
                begin <= at <= end <= n,
                begin == b[row as int],
                end == b[row + 1],
                !found ==> forall|i: int| begin <= i < at ==> !#[trigger] p(i),
                found ==> has_hit(b, p, row as int),
            decreases end - at,
        {
            if cover.contains(codes[at]) {
                assert(p(at as int));
                found = true;
            }
            at = at + 1;
        }
        proof {
            assert(q(row as int) == found);
        }
        if found {
            out.push(row);
            proof {
                assert(out@ =~= old(out)@ + selected_rows((row + 1) as nat, q));
            }
        }
        row = row + 1;
    }
}

/// When a row scan may stop pruning: at every 4096th row, once at least one in
/// `min_seen_divisor` of the rows were decided and `ratio_num` in `ratio_den`
/// of those turned out to be candidates.
#[derive(Clone, Copy, Debug)]
pub struct BailPolicy {
    pub min_seen_divisor: usize,
    pub ratio_num: usize,
    pub ratio_den: usize,
}

/// The scan gives up pruning after `seen` rows, of which it appended some.
pub open spec fn bails(policy: BailPolicy, rows: int, seen: int, appended: int) -> bool {
    &&& seen % 4096 == 0
    &&& seen >= 1
    &&& seen >= rows / policy.min_seen_divisor as int
    &&& appended * policy.ratio_den >= seen * policy.ratio_num
}

/// No row count from 1 to `k` makes the scan give up.
pub open spec fn keeps_on(
    policy: BailPolicy,
    rows: int,
    q: spec_fn(int) -> bool,
    k: int,
) -> bool {
    forall|seen: int|
        1 <= seen <= k ==> !#[trigger] bails(
            policy,
            rows,
            seen,
            selected_rows(seen as nat, q).len() as int,
        )
}

/// The rows from `k` to `rows`.
pub open spec fn rows_from(k: int, rows: int) -> Seq<usize> {
    Seq::new((rows - k) as nat, |i: int| (k + i) as usize)
}

/// Scans row by row and stops at the first covered code of each row. With a
/// policy the scan may stop pruning once almost every row that it has decided
/// is a candidate, and append all remaining rows: exact up to that point, and
/// a superset after it.
pub fn scan_rows<O: Offset>(
    codes: &[Token],
    row_offsets: &[O],
    cover: &ProbeCover,
    bail: Option<BailPolicy>,
    out: &mut Vec<usize>,
)
    requires
        cover.wf(),
        rows_ok(bounds(row_offsets@), codes@.len() as int),
        bail matches Some(policy) ==> policy.min_seen_divisor > 0,
    ensures
        ({
            let b = bounds(row_offsets@);
            let q = rows_with(b, hits(cover, codes@));
            let rows = row_count(b) as int;
            match bail {
                None => final(out)@ == old(out)@ + selected_rows(rows as nat, q),
                Some(policy) => exists|k: int|
                    0 <= k <= rows && #[trigger] keeps_on(policy, rows, q, k - 1) && (k == rows || bails(
                        policy,
                        rows,
                        k,
                        selected_rows(k as nat, q).len() as int,
                    )) && final(out)@ == old(out)@ + selected_rows(k as nat, q) + rows_from(k, rows),
            }
        }),
{
    let ghost b = bounds(row_offsets@);
    let ghost p = hits(cover, codes@);
    let ghost q = rows_with(b, p);
    let ghost out0 = out@;
    let n: usize = codes.len();
    let rows: usize = count_rows(row_offsets);
    let mut appended: usize = 0;
    let mut row: usize = 0;
    assert(out@ =~= out0 + selected_rows(0, q));
    while row < rows
        invariant
            cover.wf(),
            n == codes@.len(),
            b == bounds(row_offsets@),
            p == hits(cover, codes@),
            q == rows_with(b, p),
            rows_ok(b, n as int),
            rows == row_count(b),
            row <= rows,
            out0 == old(out)@,
            out@ == out0 + selected_rows(row as nat, q),
            appended == selected_rows(row as nat, q).len(),
            appended <= row,
            bail matches Some(policy) ==> policy.min_seen_divisor > 0 && keeps_on(
                policy,
                rows as int,
                q,
                row as int,
            ),
        decreases rows - row,
    {
        let (begin, end) = span(row_offsets, row, Ghost(n as int));
        let mut at: usize = begin;
        let mut found: bool = false;
        while at < end && !found
            invariant
                cover.wf(),
                n == codes@.len(),
                p == hits(cover, codes@),
                begin <= at <= end <= n,
                begin == b[row as int],
                end == b[row + 1],
                !found ==> forall|i: int| begin <= i < at ==> !#[trigger] p(i),
                found ==> has_hit(b, p, row as int),
            decreases end - at,
        {
            if cover.contains(codes[at]) {
                assert(p(at as int));
                found = true;
            }
            at = at + 1;
        }
        proof {
            assert(q(row as int) == found);
        }
        if found {
            out.push(row);
            appended = appended + 1;
            proof {
                assert(out@ =~= out0 + selected_rows((row + 1) as nat, q));
            }
        }
        row = row + 1;
        match bail {
            Some(policy) => {
                let least: usize = rows / policy.min_seen_divisor;
                proof {
                    lemma_product(appended as int, policy.ratio_den as int);
                    lemma_product(row as int, policy.ratio_num as int);
                }
                if row % 4096 == 0 && row >= least && (appended as u128) * (policy.ratio_den as u128)
                    >= (row as u128) * (policy.ratio_num as u128) {
                    assert(bails(policy, rows as int, row as int, appended as int));
                    append_from(row, rows, out);
                    return;
                }
                proof {
                    assert(!bails(policy, rows as int, row as int, appended as int));
                }
            },
            None => {},
        }
    }
    proof {
        if bail is Some {
            let policy = bail->0;
            assert(keeps_on(policy, rows as int, q, rows - 1));
            assert(out@ =~= out0 + selected_rows(rows as nat, q) + rows_from(
                rows as int,
                rows as int,
            ));
        }
    }
}

/// Appends the rows from `from` to `rows`.
fn append_from(from: usize, rows: usize, out: &mut Vec<usize>)
    requires
        from <= rows,
    ensures
        final(out)@ == old(out)@ + rows_from(from as int, rows as int),
{
    let ghost out0 = out@;
    let mut row: usize = from;
    assert(out@ =~= out0 + rows_from(from as int, from as int));
    while row < rows
        invariant
            from <= row <= rows,
            out@ == out0 + rows_from(from as int, row as int),
        decreases rows - row,
    {
        out.push(row);
        assert(out@ =~= out0 + rows_from(from as int, row + 1));
        row = row + 1;
    }
}

/// Scans codes in order and maps covered positions back to rows.
pub fn scan_codes<O: Offset>(
    codes: &[Token],
    row_offsets: &[O],
    cover: &ProbeCover,
    sparse_row_mapping: bool,
    out: &mut Vec<usize>,
)
    requires
        cover.wf(),
        delimits(bounds(row_offsets@), codes@.len() as int),
    ensures
        final(out)@ == old(out)@ + selected_rows(
            row_count(bounds(row_offsets@)),
            rows_with(bounds(row_offsets@), hits(cover, codes@)),
        ),
{
    let ghost out0 = out@;
    let n: usize = codes.len();
    let mut sink = RowSink::new(
        row_offsets,
        sparse_row_mapping,
        Ghost(n as int),
        Ghost(hits(cover, codes@)),
        Ghost(out0),
    );
    scan_tail(codes, cover, 0, &mut sink, out, Ghost(out0));
}

/// A packed table holds the ids of a cover.
pub open spec fn packs(words: Seq<u32>, cover: &ProbeCover) -> bool {
    &&& cover.members().len() <= 32 * words.len() < cover.members().len() + 32
    &&& forall|t: int|
        0 <= t < 32 * words.len() ==> (#[trigger] holds_id(words, t) <==> cover.has(t))
}

fn words_for_table(len: usize) -> (r: usize)
    requires
        len <= MAX_TOKENS,
    ensures
        len <= 32 * r < len + 32,
{
    (len + 31) / 32
}

/// Sets the bits from `begin` to `last`, whole words at a time.
fn fill_range(words: &mut Vec<u32>, begin: usize, last: usize)
    requires
        begin <= last < 32 * old(words)@.len(),
        old(words)@.len() <= MAX_TOKENS,
    ensures
        final(words)@.len() == old(words)@.len(),
        forall|t: int|
            0 <= t < 32 * old(words)@.len() ==> #[trigger] holds_id(final(words)@, t) == (holds_id(
                old(words)@,
                t,
            ) || begin <= t <= last),
{
    let ghost before = words@;
    let begin_word: usize = begin / 32;
    let last_word: usize = last / 32;
    let first_mask: u32 = !0u32 << ((begin % 32) as u32);
    let last_mask: u32 = !0u32 >> ((31 - last % 32) as u32);
    proof {
        assert forall|j: int| 0 <= j < 32 implies (#[trigger] word_bit(first_mask, j) <==> j >= begin
            % 32) by {
            lemma_shifts((begin % 32) as int, j);
        }
        assert forall|j: int| 0 <= j < 32 implies (#[trigger] word_bit(last_mask, j) <==> j <= last
            % 32) by {
            lemma_shifts((31 - last % 32) as int, j);
        }
    }
    let low: u32 = words[begin_word];
    if begin_word == last_word {
        let both: u32 = first_mask & last_mask;
        words.set(begin_word, low | both);
        proof {
            assert forall|t: int| 0 <= t < 32 * before.len() implies #[trigger] holds_id(words@, t)
                == (holds_id(before, t) || begin <= t <= last) by {
                if t / 32 == begin_word {
                    lemma_words(low, both, t % 32);
                    lemma_words(first_mask, last_mask, t % 32);
                    assert(word_bit(first_mask, t % 32) <==> t % 32 >= begin % 32);
                    assert(word_bit(last_mask, t % 32) <==> t % 32 <= last % 32);
                }
            }
        }
    } else {
        words.set(begin_word, low | first_mask);
        let ghost first = words@;
        let mut w: usize = begin_word + 1;
        while w < last_word
            invariant
                begin_word < w <= last_word < words@.len(),
                words@.len() == first.len(),
                forall|k: int|
                    0 <= k < first.len() ==> #[trigger] words@[k] == (if begin_word < k < w {
                        !0u32
                    } else {
                        first[k]
                    }),
            decreases last_word - w,
        {
            words.set(w, !0u32);
            w = w + 1;
        }
        let high: u32 = words[last_word];
        words.set(last_word, high | last_mask);
        proof {
            assert forall|t: int| 0 <= t < 32 * before.len() implies #[trigger] holds_id(words@, t)
                == (holds_id(before, t) || begin <= t <= last) by {
                let k = t / 32;
                if k == begin_word {
                    lemma_words(low, first_mask, t % 32);
                    assert(word_bit(first_mask, t % 32) <==> t % 32 >= begin % 32);
                } else if k == last_word {
                    lemma_words(high, last_mask, t % 32);
                    assert(word_bit(last_mask, t % 32) <==> t % 32 <= last % 32);
                } else if begin_word < k < last_word {
                    lemma_words(0, 0, t % 32);
                }
            }
        }
    }
}

/// Packs the points and ranges of a cover without revisiting every id.
pub fn pack_membership(cover: &ProbeCover) -> (words: Vec<u32>)
    requires
        cover.wf(),
        cover.proper(),
    ensures
        packs(words@, cover),
{
    let len: usize = cover.table_len();
    let count: usize = words_for_table(len);
    let mut words: Vec<u32> = vec![0u32; count];
    let points = cover.points();
    let ranges = cover.ranges();
    let ghost ps = points@;
    let ghost rs = ranges@;
    proof {
        assert forall|t: int| 0 <= t < 32 * count implies !#[trigger] holds_id(words@, t) by {
            lemma_no_ids(words@, t);
        }
    }
    let mut i: usize = 0;
    while i < points.len()
        invariant
            cover.wf(),
            ps == points@,
            ps == cover.point_list(),
            len == cover.members().len(),
            len <= 32 * count,
            words@.len() == count,
            i <= ps.len(),
            forall|t: int|
                0 <= t < 32 * count ==> (#[trigger] holds_id(words@, t) <==> exists|k: int|
                    0 <= k < i && #[trigger] ps[k] == t),
        decreases ps.len() - i,
    {
        let id: usize = points[i] as usize;
        let ghost before = words@;
        proof {
            assert(ps[i as int] == id);
            assert(cover.has(id as int));
        }
        add_id(&mut words, id);
        proof {
            assert forall|t: int| 0 <= t < 32 * count implies (#[trigger] holds_id(words@, t)
                <==> exists|k: int| 0 <= k < i + 1 && #[trigger] ps[k] == t) by {
                assert(holds_id(before, t) <==> exists|k: int| 0 <= k < i && #[trigger] ps[k] == t);
            }
        }
        i = i + 1;
    }
    let ghost pointed = words@;
    let mut i: usize = 0;
    while i < ranges.len()
        invariant
            cover.wf(),
            cover.proper(),
            rs == ranges@,
            rs == cover.range_list(),
            len == cover.members().len(),
            len <= 32 * count,
            count <= MAX_TOKENS,
            words@.len() == count,
            i <= rs.len(),
            forall|t: int|
                0 <= t < 32 * count ==> (#[trigger] holds_id(words@, t) <==> holds_id(pointed, t)
                    || exists|k: int| 0 <= k < i && (#[trigger] rs[k]).has(t)),
        decreases rs.len() - i,
    {
        let range: TokenRange = ranges[i];
        let ghost before = words@;
        proof {
            assert(!rs[i as int].nothing());
            assert(rs[i as int].has(range.last as int));
            assert(cover.has(range.last as int));
        }
        fill_range(&mut words, range.begin as usize, range.last as usize);
        proof {
            assert forall|t: int| 0 <= t < 32 * count implies (#[trigger] holds_id(words@, t)
                <==> holds_id(pointed, t) || exists|k: int|
                0 <= k < i + 1 && (#[trigger] rs[k]).has(t)) by {
                assert(holds_id(before, t) <==> holds_id(pointed, t) || exists|k: int|
                    0 <= k < i && (#[trigger] rs[k]).has(t));
                assert(rs[i as int] == range);
            }
        }
        i = i + 1;
    }
    proof {
        assert forall|t: int| 0 <= t < 32 * count implies (#[trigger] holds_id(words@, t)
            <==> cover.has(t)) by {
            assert(holds_id(pointed, t) <==> exists|k: int|
                0 <= k < ps.len() && #[trigger] ps[k] == t);
        }
    }
    words
}

/// Packs membership by walking the complete table.
pub fn pack_membership_dense(cover: &ProbeCover) -> (words: Vec<u32>)
    requires
        cover.wf(),
    ensures
        packs(words@, cover),
{
    let len: usize = cover.table_len();
    let count: usize = words_for_table(len);
    let mut words: Vec<u32> = vec![0u32; count];
    proof {
        assert forall|t: int| 0 <= t < 32 * count implies !#[trigger] holds_id(words@, t) by {
            lemma_no_ids(words@, t);
        }
    }
    let mut id: usize = 0;
    while id < len
        invariant
            cover.wf(),
            len == cover.members().len(),
            len <= 32 * count,
            len <= MAX_TOKENS,
            id <= len,
            words@.len() == count,
            forall|t: int|
                0 <= t < 32 * count ==> (#[trigger] holds_id(words@, t) <==> t < id && cover.has(t)),
        decreases len - id,
    {
        if cover.contains(id as Token) {
            add_id(&mut words, id);
        }
        id = id + 1;
    }
    words
}

/// Membership read from a packed table.
pub struct Packed {
    words: Vec<u32>,
}

impl Packed {
    pub fn new(words: Vec<u32>, Ghost(cover): Ghost<&ProbeCover>) -> (r: Packed)
        requires
            packs(words@, cover),
        ensures
            r.ready(),
            forall|c: int| 0 <= c < cover.members().len() ==> #[trigger] r.takes(c),
            forall|c: int|
                0 <= c < cover.members().len() ==> (#[trigger] r.matches(c) <==> cover.has(c)),
    {
        Packed { words }
    }
}

impl Probe for Packed {
    open spec fn ready(&self) -> bool {
        true
    }

    closed spec fn takes(&self, c: int) -> bool {
        c < 32 * self.words@.len()
    }

    closed spec fn matches(&self, c: int) -> bool {
        holds_id(self.words@, c)
    }

    fn test(&self, code: Token) -> (r: bool) {
        test_id(&self.words, code as usize)
    }
}

/// A scan may give up pruning only after a multiple of 4096 rows, none of them
/// at the outset, once it has seen its least share of all rows and enough of
/// those were candidates.
pub proof fn lemma_giving_up_means(policy: BailPolicy, rows: int, seen: int, appended: int)
    requires
        policy.min_seen_divisor > 0,
        rows >= 0,
    ensures
        bails(policy, rows, seen, appended) <==> {
            &&& seen > 0
            &&& seen % 4096 == 0
            &&& rows < (seen + 1) * policy.min_seen_divisor
            &&& seen * policy.ratio_num <= appended * policy.ratio_den
        },
{
    let d = policy.min_seen_divisor as int;
    let q = rows / d;
    vstd::arithmetic::div_mod::lemma_fundamental_div_mod(rows, d);
    assert(d * q == q * d) by (nonlinear_arith);
    if seen >= q {
        assert((seen + 1) * d >= q * d + d) by (nonlinear_arith)
            requires
                seen >= q,
                d > 0,
        ;
    } else {
        assert((seen + 1) * d <= q * d) by (nonlinear_arith)
            requires
                seen < q,
                d > 0,
        ;
    }
}

/// A scan with a policy lists, in ascending order and each once, a superset of
/// the rows that a scan without one does: as far as it was still pruning just
/// these, and every row after that.
pub proof fn lemma_giving_up_is_a_superset(
    q: spec_fn(int) -> bool,
    k: int,
    rows: int,
    r: usize,
)
    requires
        0 <= k <= rows <= usize::MAX,
    ensures
        (selected_rows(k as nat, q) + rows_from(k, rows)).contains(r) <==> r < rows && (r >= k || q(
            r as int,
        )),
        forall|i: int, j: int|
            0 <= i < j < (selected_rows(k as nat, q) + rows_from(k, rows)).len()
                ==> #[trigger] (selected_rows(k as nat, q) + rows_from(k, rows))[i]
                < #[trigger] (selected_rows(k as nat, q) + rows_from(k, rows))[j],
{
    let a = selected_rows(k as nat, q);
    let z = rows_from(k, rows);
    let all = a + z;
    crate::rows::lemma_selected_rows_member(k as nat, q);
    assert forall|i: int| 0 <= i < a.len() implies #[trigger] a[i] < k by {
        assert(a.contains(a[i]));
    }
    if all.contains(r) {
        let i = choose|i: int| 0 <= i < all.len() && all[i] == r;
        if i < a.len() {
            assert(a.contains(r));
        } else {
            assert(z[i - a.len()] == r);
        }
    }
    if r < rows && r >= k {
        assert(z[r - k] == r);
        assert(all[a.len() + (r - k)] == r);
    }
    if r < k && q(r as int) {
        assert(a.contains(r));
        let i = choose|i: int| 0 <= i < a.len() && a[i] == r;
        assert(all[i] == r);
    }
    assert forall|i: int, j: int| 0 <= i < j < all.len() implies #[trigger] all[i]
        < #[trigger] all[j] by {
        if j < a.len() {
            assert(all[i] == a[i] && all[j] == a[j]);
        } else if i < a.len() {
            assert(all[i] == a[i] && all[j] == z[j - a.len()]);
        } else {
            assert(all[i] == z[i - a.len()] && all[j] == z[j - a.len()]);
        }
    }
}

/// A packed table has a 32-bit word for every 32 ids, the last word filled up,
/// and bit `t % 32` of word `t / 32` is set just when the cover holds `t`.
pub proof fn lemma_packed_means(words: Seq<u32>, cover: &ProbeCover, t: int)
    requires
        packs(words, cover),
        0 <= t < 32 * words.len(),
    ensures
        words.len() == (cover.members().len() + 31) / 32,
        (words[t / 32] >> ((t % 32) as u32)) & 1 == 1 <==> cover.has(t),
{
    assert(holds_id(words, t) <==> cover.has(t));
}

/// A scan that has kept on pruning had no cause to give up at any number of
/// rows so far.
pub proof fn lemma_keeping_on_means(
    policy: BailPolicy,
    rows: int,
    q: spec_fn(int) -> bool,
    k: int,
    seen: int,
)
    requires
        keeps_on(policy, rows, q, k),
        1 <= seen <= k,
    ensures
        !bails(policy, rows, seen, selected_rows(seen as nat, q).len() as int),
{
}

} // verus!
