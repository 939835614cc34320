//! Scans of a stream of one-byte codes.

use crate::bits::{bit, lemma_nonzero, lemma_set, lemma_zero};
use crate::rows::{bounds, count_rows, delimits, row_count, rows_ok, selected_rows, span, Offset};
use crate::search::prefilter::cover::ProbeCover;
use crate::search::prefilter::scan::sink::{has_hit, rows_with, RowSink};
use crate::types::{Token, TokenRange};
use vstd::prelude::*;

verus! {

/// The positions whose byte the cover holds.
pub open spec fn byte_hits(cover: &ProbeCover, codes: Seq<u8>) -> spec_fn(int) -> bool {
    |i: int| 0 <= i < codes.len() && cover.has(codes[i] as int)
}

/// The rows that hold a covered byte were appended.
pub open spec fn bytes_scanned<O: Offset>(
    before: Seq<usize>,
    after: Seq<usize>,
    codes: Seq<u8>,
    row_offsets: Seq<O>,
    cover: &ProbeCover,
) -> bool {
    after == before + selected_rows(
        row_count(bounds(row_offsets)),
        rows_with(bounds(row_offsets), byte_hits(cover, codes)),
    )
}

/// The points of a list that a byte can be.
pub open spec fn byte_points(points: Seq<Token>) -> Seq<u8>
    decreases points.len(),
{
    if points.len() == 0 {
        Seq::empty()
    } else if points.last() <= 0xFF {
        byte_points(points.drop_last()).push(points.last() as u8)
    } else {
        byte_points(points.drop_last())
    }
}

/// A range that begins at a byte, as its begin and span among bytes.
pub open spec fn byte_range(r: TokenRange) -> (u8, u8) {
    (r.begin as u8, ((if r.last < 0xFF {
        r.last as int
    } else {
        0xFF
    }) - r.begin) as u8)
}

/// The ranges of a list that hold a byte, narrowed to bytes.
pub open spec fn byte_ranges(ranges: Seq<TokenRange>) -> Seq<(u8, u8)>
    decreases ranges.len(),
{
    if ranges.len() == 0 {
        Seq::empty()
    } else if ranges.last().begin <= 0xFF {
        byte_ranges(ranges.drop_last()).push(byte_range(ranges.last()))
    } else {
        byte_ranges(ranges.drop_last())
    }
}

/// A byte equals a point, or its wrapped difference is within a span.
pub open spec fn byte_listed(points: Seq<u8>, ranges: Seq<(u8, u8)>, c: int) -> bool {
    ||| exists|i: int| 0 <= i < points.len() && #[trigger] points[i] == c
    ||| exists|i: int| 0 <= i < ranges.len() && byte_inside(#[trigger] ranges[i], c)
}

/// The byte lies in the range.
pub open spec fn byte_inside(range: (u8, u8), c: int) -> bool {
    range.0 <= c <= range.0 + range.1
}

proof fn lemma_byte_points(points: Seq<Token>, c: int)
    requires
        0 <= c <= 0xFF,
    ensures
        (exists|i: int| 0 <= i < byte_points(points).len() && #[trigger] byte_points(points)[i] == c)
            <==> (exists|i: int| 0 <= i < points.len() && #[trigger] points[i] == c),
    decreases points.len(),
{
    if points.len() > 0 {
        let rest = points.drop_last();
        lemma_byte_points(rest, c);
        let all = byte_points(points);
        let few = byte_points(rest);
        let by_all = exists|i: int| 0 <= i < all.len() && #[trigger] all[i] == c;
        let by_few = exists|i: int| 0 <= i < few.len() && #[trigger] few[i] == c;
        let by_points = exists|i: int| 0 <= i < points.len() && #[trigger] points[i] == c;
        let by_rest = exists|i: int| 0 <= i < rest.len() && #[trigger] rest[i] == c;
        if by_all {
            let i = choose|i: int| 0 <= i < all.len() && #[trigger] all[i] == c;
            if i < few.len() {
                assert(few[i] == c);
                assert(by_rest);
            } else {
                assert(points[points.len() - 1] == c);
            }
        }
        if by_rest {
            let i = choose|i: int| 0 <= i < rest.len() && #[trigger] rest[i] == c;
            assert(points[i] == c);
        }
        if by_points {
            let i = choose|i: int| 0 <= i < points.len() && #[trigger] points[i] == c;
            if i < rest.len() {
                assert(rest[i] == c);
                assert(by_few);
                let j = choose|j: int| 0 <= j < few.len() && #[trigger] few[j] == c;
                assert(all[j] == c);
            } else {
                assert(all[few.len() as int] == c);
            }
        }
    }
}

proof fn lemma_byte_ranges(ranges: Seq<TokenRange>, c: int)
    requires
        0 <= c <= 0xFF,
        forall|i: int| 0 <= i < ranges.len() ==> !(#[trigger] ranges[i]).nothing(),
    ensures
        (exists|i: int|
            0 <= i < byte_ranges(ranges).len() && byte_inside(#[trigger] byte_ranges(ranges)[i], c))
            <==> (exists|i: int| 0 <= i < ranges.len() && (#[trigger] ranges[i]).has(c)),
    decreases ranges.len(),
{
    if ranges.len() > 0 {
        let rest = ranges.drop_last();
        assert forall|i: int| 0 <= i < rest.len() implies !(#[trigger] rest[i]).nothing() by {
            assert(rest[i] == ranges[i]);
        }
        lemma_byte_ranges(rest, c);
        let last = ranges.last();
        assert(!ranges[ranges.len() - 1].nothing());
        let all = byte_ranges(ranges);
        let few = byte_ranges(rest);
        let by_all = exists|i: int| 0 <= i < all.len() && byte_inside(#[trigger] all[i], c);
        let by_few = exists|i: int| 0 <= i < few.len() && byte_inside(#[trigger] few[i], c);
        let by_ranges = exists|i: int| 0 <= i < ranges.len() && (#[trigger] ranges[i]).has(c);
        let by_rest = exists|i: int| 0 <= i < rest.len() && (#[trigger] rest[i]).has(c);
        if by_all {
            let i = choose|i: int| 0 <= i < all.len() && byte_inside(#[trigger] all[i], c);
            if i < few.len() {
                assert(byte_inside(few[i], c));
                assert(by_rest);
            } else {
                assert(ranges[ranges.len() - 1].has(c));
            }
        }
        if by_rest {
            let i = choose|i: int| 0 <= i < rest.len() && (#[trigger] rest[i]).has(c);
            assert(ranges[i].has(c));
        }
        if by_ranges {
            let i = choose|i: int| 0 <= i < ranges.len() && (#[trigger] ranges[i]).has(c);
            if i < rest.len() {
                assert(rest[i].has(c));
                assert(by_few);
                let j = choose|j: int| 0 <= j < few.len() && byte_inside(#[trigger] few[j], c);
                assert(byte_inside(all[j], c));
            } else {
                assert(byte_inside(all[few.len() as int], c));
            }
        }
    }
}

/// The cover's probes narrowed to bytes, ranges as begin and span. A byte
/// stream names no id above 255, so probes beyond match nothing and are
/// dropped; a range across the boundary keeps its low part.
pub fn byte_probes(cover: &ProbeCover) -> (r: (Vec<u8>, Vec<(u8, u8)>))
    requires
        cover.proper(),
    ensures
        r.0@ == byte_points(cover.point_list()),
        r.1@ == byte_ranges(cover.range_list()),
{
    let list = cover.points();
    let ghost ps = list@;
    let mut points: Vec<u8> = Vec::new();
    let mut i: usize = 0;
    while i < list.len()
        invariant
            ps == list@,
            i <= ps.len(),
            points@ == byte_points(ps.take(i as int)),
        decreases ps.len() - i,
    {
        assert(ps.take(i + 1).drop_last() =~= ps.take(i as int));
        let point: Token = list[i];
        if point <= 0xFF {
            points.push(point as u8);
        }
        i = i + 1;
    }
    assert(ps.take(i as int) =~= ps);
    let list = cover.ranges();
    let ghost rs = list@;
    let mut ranges: Vec<(u8, u8)> = Vec::new();
    let mut i: usize = 0;
    while i < list.len()
        invariant
            rs == list@,
            i <= rs.len(),
            rs == cover.range_list(),
            cover.proper(),
            ranges@ == byte_ranges(rs.take(i as int)),
        decreases rs.len() - i,
    {
        assert(rs.take(i + 1).drop_last() =~= rs.take(i as int));
        let range: TokenRange = list[i];
        assert(!rs[i as int].nothing());
        if range.begin <= 0xFF {
            let last: u16 = if range.last < 0xFF {
                range.last
            } else {
                0xFF
            };
            ranges.push((range.begin as u8, (last - range.begin) as u8));
        }
        i = i + 1;
    }
    assert(rs.take(i as int) =~= rs);
    (points, ranges)
}

/// Whether a byte is one of the probes.
fn byte_test(points: &Vec<u8>, ranges: &Vec<(u8, u8)>, code: u8) -> (r: bool)
    requires
        forall|i: int| 0 <= i < ranges@.len() ==> (#[trigger] ranges@[i]).0 + ranges@[i].1 <= 0xFF,
    ensures
        r == byte_listed(points@, ranges@, code as int),
{
    let mut hit: bool = false;
    let mut i: usize = 0;
    while i < points.len()
        invariant
            i <= points@.len(),
            hit == exists|k: int| 0 <= k < i && #[trigger] points@[k] == code,
        decreases points@.len() - i,
    {
        let equal: bool = points[i] == code;
        proof {
            if equal {
                assert(points@[i as int] == code);
            }
        }
        hit = hit || equal;
        i = i + 1;
    }
    let ghost by_point = hit;
    let mut i: usize = 0;
    while i < ranges.len()
        invariant
            i <= ranges@.len(),
            forall|k: int|
                0 <= k < ranges@.len() ==> (#[trigger] ranges@[k]).0 + ranges@[k].1 <= 0xFF,
            hit == (by_point || exists|k: int|
                0 <= k < i && byte_inside(#[trigger] ranges@[k], code as int)),
        decreases ranges@.len() - i,
    {
        let range: (u8, u8) = ranges[i];
        assert(ranges@[i as int].0 + ranges@[i as int].1 <= 0xFF);
        let inside: bool = code.wrapping_sub(range.0) <= range.1;
        proof {
            assert(inside == byte_inside(ranges@[i as int], code as int));
        }
        hit = hit || inside;
        i = i + 1;
    }
    hit
}

proof fn lemma_spans(ranges: Seq<TokenRange>)
    requires
        forall|i: int| 0 <= i < ranges.len() ==> !(#[trigger] ranges[i]).nothing(),
    ensures
        forall|i: int|
            0 <= i < byte_ranges(ranges).len() ==> (#[trigger] byte_ranges(ranges)[i]).0
                + byte_ranges(ranges)[i].1 <= 0xFF,
    decreases ranges.len(),
{
    if ranges.len() > 0 {
        let rest = ranges.drop_last();
        assert forall|i: int| 0 <= i < rest.len() implies !(#[trigger] rest[i]).nothing() by {
            assert(rest[i] == ranges[i]);
        }
        lemma_spans(rest);
        assert(!ranges[ranges.len() - 1].nothing());
        let all = byte_ranges(ranges);
        let few = byte_ranges(rest);
        assert forall|i: int| 0 <= i < all.len() implies (#[trigger] all[i]).0 + all[i].1 <= 0xFF by {
            if i < few.len() {
                assert(all[i] == few[i]);
            }
        }
    }
}

/// Walks the stream two vectors of sixteen bytes at a time, and appends the
/// ascending rows that hold a covered byte.
pub fn scan<O: Offset>(
    codes: &[u8],
    row_offsets: &[O],
    cover: &ProbeCover,
    sparse_row_mapping: bool,
    out: &mut Vec<usize>,
)
    requires
        cover.wf(),
        cover.proper(),
        delimits(bounds(row_offsets@), codes@.len() as int),
    ensures
        bytes_scanned(old(out)@, final(out)@, codes@, row_offsets@, cover),
{
    let ghost p = byte_hits(cover, codes@);
    let ghost out0 = out@;
    let n: usize = codes.len();
    let (points, ranges) = byte_probes(cover);
    proof {
        lemma_spans(cover.range_list());
        assert forall|c: int| 0 <= c <= 0xFF implies (#[trigger] byte_listed(points@, ranges@, c)
            <==> cover.has(c)) by {
            lemma_byte_points(cover.point_list(), c);
            lemma_byte_ranges(cover.range_list(), c);
        }
    }
    let mut sink = RowSink::new(
        row_offsets,
        sparse_row_mapping,
        Ghost(n as int),
        Ghost(p),
        Ghost(out0),
    );
    let ghost b = sink.bounds();
    let mut at: usize = 0;
    while n - at >= 32
        invariant
            n == codes@.len(),
            at <= n,
            p == byte_hits(cover, codes@),
            forall|c: int|
                0 <= c <= 0xFF ==> (#[trigger] byte_listed(points@, ranges@, c) <==> cover.has(c)),
            forall|i: int|
                0 <= i < ranges@.len() ==> (#[trigger] ranges@[i]).0 + ranges@[i].1 <= 0xFF,
            sink.bounds() == b,
            sink.is_at(n as int, p, at as int, out0, out@),
        decreases n - at,
    {
        let mut mask: u64 = 0;
        let mut lane: usize = 0;
        proof {
            assert forall|j: int| 0 <= j < 64 implies !#[trigger] bit(0u64, j) by {
                lemma_zero(j);
            }
        }
        while lane < 32
            invariant
                n == codes@.len(),
                at + 32 <= n,
                lane <= 32,
                p == byte_hits(cover, codes@),
                forall|c: int|
                    0 <= c <= 0xFF ==> (#[trigger] byte_listed(points@, ranges@, c)
                        <==> cover.has(c)),
                forall|i: int|
                    0 <= i < ranges@.len() ==> (#[trigger] ranges@[i]).0 + ranges@[i].1 <= 0xFF,
                forall|j: int|
                    0 <= j < 64 ==> (#[trigger] bit(mask, j) <==> j < lane && p(at + j)),
            decreases 32 - lane,
        {
            let code: u8 = codes[at + lane];
            let hit: bool = byte_test(&points, &ranges, code);
            let ghost before = mask;
            if hit {
                mask = mask | (1u64 << (lane as u64));
            }
            proof {
                assert(byte_listed(points@, ranges@, code as int) <==> cover.has(code as int));
                assert forall|j: int| 0 <= j < 64 implies (#[trigger] bit(mask, j) <==> j < lane + 1
                    && p(at + j)) by {
                    if hit {
                        lemma_set(before, lane as int, j);
                    }
                    assert(bit(before, j) <==> j < lane && p(at + j));
                }
            }
            lane = lane + 1;
        }
        proof {
            lemma_nonzero(mask);
        }
        if mask != 0 {
            sink.mark_mask(at, mask, out, Ghost(32), Ghost(n as int), Ghost(p), Ghost(out0));
        } else {
            proof {
                assert forall|i: int| at <= i < at + 32 implies !#[trigger] p(i) by {
                    assert(!bit(mask, i - at));
                    assert(bit(mask, i - at) <==> i - at < 32 && p(at + (i - at)));
                }
                sink.lemma_skip(n as int, p, at as int, at + 32, out0, out@);
            }
        }
        at = at + 32;
    }
    while at < n
        invariant
            cover.wf(),
            n == codes@.len(),
            at <= n,
            p == byte_hits(cover, codes@),
            sink.bounds() == b,
            sink.is_at(n as int, p, at as int, out0, out@),
        decreases n - at,
    {
        if cover.contains(codes[at] as Token) {
            assert(p(at as int));
            sink.hit(at, out, Ghost(n as int), Ghost(p), Ghost(out0));
        } else {
            proof {
                assert(!p(at as int));
                sink.lemma_skip(n as int, p, at as int, at + 1, out0, out@);
            }
        }
        at = at + 1;
    }
    proof {
        sink.lemma_done(n as int, p, out0, out@);
    }
}

/// Row-at-a-time membership walk.
pub fn scan_scalar<O: Offset>(
    codes: &[u8],
    row_offsets: &[O],
    cover: &ProbeCover,
    out: &mut Vec<usize>,
)
    requires
        cover.wf(),
        rows_ok(bounds(row_offsets@), codes@.len() as int),
    ensures
        bytes_scanned(old(out)@, final(out)@, codes@, row_offsets@, cover),
{
    let ghost b = bounds(row_offsets@);
    let ghost p = byte_hits(cover, codes@);
    let ghost q = rows_with(b, p);
    let n: usize = codes.len();
    let rows: usize = count_rows(row_offsets);
    let mut row: usize = 0;
    assert(out@ =~= old(out)@ + selected_rows(0, q));
    while row < rows
        invariant
            cover.wf(),
            n == codes@.len(),
            b == bounds(row_offsets@),
            p == byte_hits(cover, codes@),
            q == rows_with(b, p),
            rows_ok(b, n as int),
            rows == row_count(b),
            row <= rows,
            out@ == old(out)@ + selected_rows(row as nat, q),
        decreases rows - row,
    {
        let (begin, end) = span(row_offsets, row, Ghost(n as int));
        let mut at: usize = begin;
        let mut found: bool = false;
        while at < end && !found
            invariant
                cover.wf(),
                n == codes@.len(),
                p == byte_hits(cover, codes@),
                begin <= at <= end <= n,
                begin == b[row as int],
                end == b[row + 1],
                !found ==> forall|i: int| begin <= i < at ==> !#[trigger] p(i),
                found ==> has_hit(b, p, row as int),
            decreases end - at,
        {
            if cover.contains(codes[at] as Token) {
                assert(p(at as int));
                found = true;
            }
            at = at + 1;
        }
        proof {
            assert(q(row as int) == found);
        }
        if found {
            out.push(row);
            proof {
                assert(out@ =~= old(out)@ + selected_rows((row + 1) as nat, q));
            }
        }
        row = row + 1;
    }
}

/// A scan of bytes keeps what was listed, and appends in ascending order, each
/// once, the rows that hold a byte which the cover holds as an id.
pub proof fn lemma_byte_scan_means<O: Offset>(
    before: Seq<usize>,
    after: Seq<usize>,
    codes: Seq<u8>,
    row_offsets: Seq<O>,
    cover: &ProbeCover,
    r: usize,
)
    requires
        bytes_scanned(before, after, codes, row_offsets, cover),
        row_offsets.len() <= usize::MAX,
    ensures
        before.len() <= after.len(),
        after.take(before.len() as int) =~= before,
        forall|i: int, j: int|
            before.len() <= i < j < after.len() ==> #[trigger] after[i] < #[trigger] after[j],
        after.skip(before.len() as int).contains(r) <==> r + 1 < row_offsets.len() && exists|i: int|
            row_offsets[r as int].value() <= i < row_offsets[r + 1].value() && 0 <= i < codes.len()
                && cover.has(#[trigger] codes[i] as int),
{
    let b = bounds(row_offsets);
    let p = byte_hits(cover, codes);
    let q = rows_with(b, p);
    let rows = row_count(b);
    let found = selected_rows(rows, q);
    crate::rows::lemma_selected_rows_member(rows, q);
    assert(after.skip(before.len() as int) =~= found);
    assert forall|i: int, j: int| before.len() <= i < j < after.len() implies #[trigger] after[i]
        < #[trigger] after[j] by {
        assert(after[i] == found[i - before.len()]);
        assert(after[j] == found[j - before.len()]);
    }
    assert(found.contains(r) <==> r < rows && q(r as int));
    if r < rows {
        if q(r as int) {
            let i = choose|i: int| b[r as int] <= i < b[r + 1] && #[trigger] p(i);
            assert(cover.has(codes[i] as int));
        }
        if exists|i: int|
            row_offsets[r as int].value() <= i < row_offsets[r + 1].value() && 0 <= i < codes.len()
                && cover.has(#[trigger] codes[i] as int) {
            let i = choose|i: int|
                row_offsets[r as int].value() <= i < row_offsets[r + 1].value() && 0 <= i
                    < codes.len() && cover.has(#[trigger] codes[i] as int);
            assert(p(i));
        }
    }
}

/// One point more is kept just when it is a byte. One range more is kept just
/// when it begins at a byte, from there up to its last id or the last byte.
pub proof fn lemma_byte_probes_add_up(
    points: Seq<Token>,
    t: Token,
    ranges: Seq<TokenRange>,
    r: TokenRange,
)
    requires
        r.begin <= r.last,
    ensures
        byte_points(Seq::empty()) == Seq::<u8>::empty(),
        byte_points(points.push(t)) == (if t <= 255 {
            byte_points(points).push(t as u8)
        } else {
            byte_points(points)
        }),
        byte_ranges(Seq::empty()) == Seq::<(u8, u8)>::empty(),
        r.begin > 255 ==> byte_ranges(ranges.push(r)) == byte_ranges(ranges),
        r.begin <= 255 ==> {
            let more = byte_ranges(ranges.push(r));
            &&& more.len() == byte_ranges(ranges).len() + 1
            &&& more.drop_last() =~= byte_ranges(ranges)
            &&& more.last().0 == r.begin
            &&& more.last().0 + more.last().1 == if r.last < 255 {
                r.last as int
            } else {
                255
            }
        },
{
    assert(points.push(t).drop_last() =~= points);
    assert(ranges.push(r).drop_last() =~= ranges);
}

} // verus!
