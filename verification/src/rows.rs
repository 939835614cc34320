//! Rows of a code stream: offsets that delimit them, and lists of row ids.

use crate::types::Token;
use vstd::prelude::*;

verus! {

/// An integer that can delimit rows of a code stream.
pub trait Offset: Copy {
    /// The number the offset stands for.
    spec fn value(self) -> nat;

    /// The offset as an index, or `None` where it does not fit one.
    fn to_usize(self) -> (r: Option<usize>)
        ensures
            r is Some <==> self.value() <= usize::MAX,
            r matches Some(v) ==> v == self.value(),
    ;
}

impl Offset for u32 {
    open spec fn value(self) -> nat {
        self as nat
    }

    fn to_usize(self) -> (r: Option<usize>) {
        Some(self as usize)
    }
}

impl Offset for u64 {
    open spec fn value(self) -> nat {
        self as nat
    }

    fn to_usize(self) -> (r: Option<usize>) {
        if self <= usize::MAX as u64 {
            Some(self as usize)
        } else {
            None
        }
    }
}

impl Offset for usize {
    open spec fn value(self) -> nat {
        self as nat
    }

    fn to_usize(self) -> (r: Option<usize>) {
        Some(self)
    }
}

/// The numbers a sequence of offsets stands for.
pub open spec fn bounds<O: Offset>(offsets: Seq<O>) -> Seq<int> {
    Seq::new(offsets.len(), |i: int| offsets[i].value() as int)
}

/// The number of rows that a sequence of row bounds delimits.
pub open spec fn row_count(bounds: Seq<int>) -> nat {
    if bounds.len() == 0 {
        0
    } else {
        (bounds.len() - 1) as nat
    }
}

/// Every row is a span of a stream of `n` codes, and rows follow each other.
pub open spec fn rows_ok(bounds: Seq<int>, n: int) -> bool {
    forall|i: int, j: int|
        0 <= i < j < bounds.len() ==> 0 <= #[trigger] bounds[i] <= #[trigger] bounds[j] <= n
}

/// The rows partition a stream of `n` codes.
pub open spec fn delimits(bounds: Seq<int>, n: int) -> bool {
    &&& rows_ok(bounds, n)
    &&& bounds.len() == 0 ==> n == 0
    &&& bounds.len() > 0 ==> bounds[0] == 0 && bounds[bounds.len() - 1] == n
}

/// The codes of row `r`.
pub open spec fn row_codes(codes: Seq<Token>, bounds: Seq<int>, r: int) -> Seq<Token> {
    codes.subrange(bounds[r], bounds[r + 1])
}

/// The rows below `n` that `p` holds of, ascending.
pub open spec fn selected(n: nat, p: spec_fn(int) -> bool) -> Seq<u64>
    decreases n,
{
    if n == 0 {
        Seq::empty()
    } else if p(n - 1) {
        selected((n - 1) as nat, p).push((n - 1) as u64)
    } else {
        selected((n - 1) as nat, p)
    }
}

/// The rows below `n` that `p` holds of, ascending, as indices.
pub open spec fn selected_rows(n: nat, p: spec_fn(int) -> bool) -> Seq<usize>
    decreases n,
{
    if n == 0 {
        Seq::empty()
    } else if p(n - 1) {
        selected_rows((n - 1) as nat, p).push((n - 1) as usize)
    } else {
        selected_rows((n - 1) as nat, p)
    }
}

/// Every row.
pub open spec fn every_row() -> spec_fn(int) -> bool {
    |r: int| true
}

/// Rows that `p` does not hold of add nothing.
pub proof fn lemma_selected_skip(a: nat, b: nat, p: spec_fn(int) -> bool)
    requires
        a <= b,
        forall|r: int| a <= r < b ==> !#[trigger] p(r),
    ensures
        selected(b, p) == selected(a, p),
        selected_rows(b, p) == selected_rows(a, p),
    decreases b,
{
    if a < b {
        lemma_selected_skip(a, (b - 1) as nat, p);
    }
}

/// A row is listed exactly when it is below `n` and `p` holds of it.
pub proof fn lemma_selected_member(n: nat, p: spec_fn(int) -> bool)
    requires
        n <= u64::MAX,
    ensures
        forall|r: u64| #[trigger] selected(n, p).contains(r) <==> r < n && p(r as int),
        forall|i: int, j: int|
            0 <= i < j < selected(n, p).len() ==> #[trigger] selected(n, p)[i]
                < #[trigger] selected(n, p)[j],
    decreases n,
{
    if n > 0 {
        let m = (n - 1) as nat;
        lemma_selected_member(m, p);
        let prev = selected(m, p);
        assert forall|i: int| 0 <= i < prev.len() implies #[trigger] prev[i] < m by {
            assert(prev.contains(prev[i]));
        }
        if p(m as int) {
            let s = prev.push(m as u64);
            assert forall|r: u64| #[trigger] s.contains(r) <==> r < n && p(r as int) by {
                if s.contains(r) {
                    let i = choose|i: int| 0 <= i < s.len() && s[i] == r;
                    if i < prev.len() {
                        assert(prev.contains(prev[i]));
                    }
                }
                if r < n && p(r as int) {
                    if r < m {
                        assert(prev.contains(r));
                        let i = choose|i: int| 0 <= i < prev.len() && prev[i] == r;
                        assert(s[i] == r);
                    } else {
                        assert(s[prev.len() as int] == r);
                    }
                }
            }
        }
    }
}

/// A row index is listed exactly when it is below `n` and `p` holds of it.
pub proof fn lemma_selected_rows_member(n: nat, p: spec_fn(int) -> bool)
    requires
        n <= usize::MAX,
    ensures
        forall|r: usize| #[trigger] selected_rows(n, p).contains(r) <==> r < n && p(r as int),
        forall|i: int, j: int|
            0 <= i < j < selected_rows(n, p).len() ==> #[trigger] selected_rows(n, p)[i]
                < #[trigger] selected_rows(n, p)[j],
    decreases n,
{
    if n > 0 {
        let m = (n - 1) as nat;
        lemma_selected_rows_member(m, p);
        let prev = selected_rows(m, p);
        assert forall|i: int| 0 <= i < prev.len() implies #[trigger] prev[i] < m by {
            assert(prev.contains(prev[i]));
        }
        if p(m as int) {
            let s = prev.push(m as usize);
            assert forall|r: usize| #[trigger] s.contains(r) <==> r < n && p(r as int) by {
                if s.contains(r) {
                    let i = choose|i: int| 0 <= i < s.len() && s[i] == r;
                    if i < prev.len() {
                        assert(prev.contains(prev[i]));
                    }
                }
                if r < n && p(r as int) {
                    if r < m {
                        assert(prev.contains(r));
                        let i = choose|i: int| 0 <= i < prev.len() && prev[i] == r;
                        assert(s[i] == r);
                    } else {
                        assert(s[prev.len() as int] == r);
                    }
                }
            }
        }
    }
}

/// Predicates that agree below `n` select the same rows.
pub proof fn lemma_selected_agree(n: nat, p: spec_fn(int) -> bool, q: spec_fn(int) -> bool)
    requires
        forall|r: int| 0 <= r < n ==> #[trigger] p(r) == q(r),
    ensures
        selected(n, p) == selected(n, q),
        selected_rows(n, p) == selected_rows(n, q),
    decreases n,
{
    if n > 0 {
        lemma_selected_agree((n - 1) as nat, p, q);
        assert(p(n - 1) == q(n - 1));
    }
}

/// The number of rows that `offsets` delimits.
pub fn count_rows<O: Offset>(offsets: &[O]) -> (n: usize)
    ensures
        n == row_count(bounds(offsets@)),
{
    if offsets.len() == 0 {
        0
    } else {
        offsets.len() - 1
    }
}

/// The `i`-th row bound.
pub fn bound_at<O: Offset>(offsets: &[O], i: usize) -> (v: usize)
    requires
        i < offsets@.len(),
        bounds(offsets@)[i as int] <= usize::MAX,
    ensures
        v == bounds(offsets@)[i as int],
{
    match offsets[i].to_usize() {
        Some(v) => v,
        None => 0,
    }
}

/// The span of codes that row `r` covers.
pub fn span<O: Offset>(offsets: &[O], r: usize, Ghost(n): Ghost<int>) -> (s: (usize, usize))
    requires
        rows_ok(bounds(offsets@), n),
        n <= usize::MAX,
        r + 1 < offsets@.len(),
    ensures
        s.0 == bounds(offsets@)[r as int],
        s.1 == bounds(offsets@)[r + 1],
        s.0 <= s.1 <= n,
{
    let count: usize = offsets.len();
    assert(r + 1 < count);
    proof {
        let b = bounds(offsets@);
        assert(b[r as int] <= b[r + 1] <= n);
    }
    (bound_at(offsets, r), bound_at(offsets, r + 1))
}

/// Every row id, ascending.
pub fn all_rows<O: Offset>(offsets: &[O]) -> (out: Vec<u64>)
    ensures
        out@ == selected(row_count(bounds(offsets@)), every_row()),
{
    let n = count_rows(offsets);
    let mut out: Vec<u64> = Vec::new();
    let mut r: usize = 0;
    while r < n
        invariant
            r <= n,
            out@ == selected(r as nat, every_row()),
        decreases n - r,
    {
        assert(every_row()(r as int));
        out.push(r as u64);
        r = r + 1;
    }
    out
}

/// Appends every row index, ascending.
pub fn append_all_rows<O: Offset>(offsets: &[O], out: &mut Vec<usize>)
    ensures
        final(out)@ == old(out)@ + selected_rows(row_count(bounds(offsets@)), every_row()),
{
    let n = count_rows(offsets);
    let mut r: usize = 0;
    assert(out@ =~= old(out)@ + selected_rows(0, every_row()));
    while r < n
        invariant
            r <= n,
            out@ == old(out)@ + selected_rows(r as nat, every_row()),
        decreases n - r,
    {
        assert(every_row()(r as int));
        out.push(r);
        assert(out@ =~= old(out)@ + selected_rows((r + 1) as nat, every_row()));
        r = r + 1;
    }
}

/// The first of `lo..hi` whose bound exceeds `code`, or `hi`.
pub fn first_above<O: Offset>(offsets: &[O], lo: usize, hi: usize, code: usize, Ghost(n): Ghost<int>) -> (r: usize)
    requires
        rows_ok(bounds(offsets@), n),
        n <= usize::MAX,
        lo <= hi <= offsets@.len(),
        offsets@.len() >= 2,
    ensures
        lo <= r <= hi,
        forall|i: int| lo <= i < r ==> #[trigger] bounds(offsets@)[i] <= code,
        forall|i: int| r <= i < hi ==> #[trigger] bounds(offsets@)[i] > code,
{
    let ghost b = bounds(offsets@);
    let mut a: usize = lo;
    let mut z: usize = hi;
    while a < z
        invariant
            b == bounds(offsets@),
            rows_ok(b, n),
            n <= usize::MAX,
            lo <= a <= z <= hi <= offsets@.len(),
            offsets@.len() >= 2,
            forall|i: int| lo <= i < a ==> #[trigger] b[i] <= code,
            forall|i: int| z <= i < hi ==> #[trigger] b[i] > code,
        decreases z - a,
    {
        let mid: usize = a + (z - a) / 2;
        proof {
            lemma_bound_in(b, n, mid as int);
        }
        if bound_at(offsets, mid) <= code {
            proof {
                assert forall|i: int| lo <= i < mid + 1 implies #[trigger] b[i] <= code by {
                    if i < mid {
                        assert(b[i] <= b[mid as int]);
                    }
                }
            }
            a = mid + 1;
        } else {
            proof {
                assert forall|i: int| mid <= i < hi implies #[trigger] b[i] > code by {
                    if i > mid {
                        assert(b[mid as int] <= b[i]);
                    }
                }
            }
            z = mid;
        }
    }
    a
}

/// Every bound of two or more lies within the stream.
pub proof fn lemma_bound_in(b: Seq<int>, n: int, i: int)
    requires
        rows_ok(b, n),
        b.len() >= 2,
        0 <= i < b.len(),
    ensures
        0 <= b[i] <= n,
{
    if i > 0 {
        assert(b[0] <= b[i]);
    } else {
        assert(b[i] <= b[1]);
    }
}

/// The row holding `code`, from a row that begins at or before it: the step
/// from that row doubles until the bounds overshoot, and the bracket that it
/// leaves is searched.
pub fn gallop<O: Offset>(offsets: &[O], from: usize, code: usize, Ghost(n): Ghost<int>) -> (r: usize)
    requires
        rows_ok(bounds(offsets@), n),
        n <= usize::MAX,
        offsets@.len() >= 2,
        from < offsets@.len(),
        bounds(offsets@)[from as int] <= code,
    ensures
        from <= r < offsets@.len(),
        bounds(offsets@)[r as int] <= code,
        r + 1 < offsets@.len() ==> bounds(offsets@)[r + 1] > code,
{
    let ghost b = bounds(offsets@);
    let len: usize = offsets.len();
    let mut half: usize = 0;
    let mut step: usize = 1;
    loop
        invariant
            b == bounds(offsets@),
            rows_ok(b, n),
            n <= usize::MAX,
            len == offsets@.len(),
            len >= 2,
            half < step,
            from + half < len,
            b[from + half] <= code,
        ensures
            from + half < len,
            b[from + half] <= code,
            half < step,
            from + step < len ==> b[from + step] > code,
        decreases len - from - half,
    {
        if step >= len - from {
            break ;
        }
        proof {
            lemma_bound_in(b, n, from + step);
        }
        if bound_at(offsets, from + step) > code {
            break ;
        }
        half = step;
        step = step.saturating_add(step);
    }
    let lo: usize = from + half;
    let hi: usize = if step >= len - from {
        len
    } else {
        from + step
    };
    let above: usize = first_above(offsets, lo + 1, hi, code, Ghost(n));
    proof {
        if above - 1 > lo {
            assert(b[above - 1] <= code);
        }
        if above < len {
            if above < hi {
                assert(b[above as int] > code);
            }
        }
    }
    above - 1
}

/// Offsets bound rows by the numbers that they are, one row between each two.
pub proof fn lemma_bounds_are_offsets(a: Seq<u32>, b: Seq<u64>, c: Seq<usize>)
    ensures
        bounds(a).len() == a.len(),
        bounds(b).len() == b.len(),
        bounds(c).len() == c.len(),
        forall|i: int| 0 <= i < a.len() ==> #[trigger] bounds(a)[i] == a[i],
        forall|i: int| 0 <= i < b.len() ==> #[trigger] bounds(b)[i] == b[i],
        forall|i: int| 0 <= i < c.len() ==> #[trigger] bounds(c)[i] == c[i],
        row_count(bounds(a)) == (if a.len() == 0 {
            0
        } else {
            a.len() - 1
        }),
        row_count(bounds(b)) == (if b.len() == 0 {
            0
        } else {
            b.len() - 1
        }),
        row_count(bounds(c)) == (if c.len() == 0 {
            0
        } else {
            c.len() - 1
        }),
{
}

/// Rows are in order just when no bound, step by step, falls below the one
/// before it, the first is not negative and the last is within the stream.
pub proof fn lemma_rows_follow(b: Seq<int>, n: int)
    ensures
        b.len() >= 2 ==> (rows_ok(b, n) <==> {
            &&& 0 <= b[0]
            &&& b[b.len() - 1] <= n
            &&& forall|i: int| 0 < i < b.len() ==> b[i - 1] <= #[trigger] b[i]
        }),
        delimits(b, n) <==> rows_ok(b, n) && (if b.len() == 0 {
            n == 0
        } else {
            b[0] == 0 && b[b.len() - 1] == n
        }),
{
    if b.len() >= 2 {
        if rows_ok(b, n) {
            lemma_bound_in(b, n, 0);
            lemma_bound_in(b, n, b.len() - 1);
        }
        if 0 <= b[0] && b[b.len() - 1] <= n && forall|i: int|
            0 < i < b.len() ==> b[i - 1] <= #[trigger] b[i] {
            assert forall|i: int, j: int| 0 <= i < j < b.len() implies 0 <= #[trigger] b[i]
                <= #[trigger] b[j] <= n by {
                lemma_bounds_climb(b, 0, i);
                lemma_bounds_climb(b, i, j);
                lemma_bounds_climb(b, j, b.len() - 1);
            }
        }
    }
}

proof fn lemma_bounds_climb(b: Seq<int>, i: int, j: int)
    requires
        forall|k: int| 0 < k < b.len() ==> b[k - 1] <= #[trigger] b[k],
        0 <= i <= j < b.len(),
    ensures
        b[i] <= b[j],
    decreases j - i,
{
    if i < j {
        assert(b[j - 1] <= b[j]);
        lemma_bounds_climb(b, i, j - 1);
    }
}

/// All rows are every row.
pub proof fn lemma_every_row(r: int)
    ensures
        every_row()(r),
{
}

} // verus!
