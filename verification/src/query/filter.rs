//! Membership of codes in a fixed set, tested over whole code streams.
//!
//! Dictionaries are sorted, so the codes of a set cluster into a handful of
//! contiguous ranges. While few ranges suffice, membership is a range check;
//! otherwise it is a probe of a bitmap.

use crate::bits::{
    bit, get_bit, lemma_and, lemma_lowest, lemma_or, lemma_set, lemma_shl, lemma_high_ones,
    lemma_shr, lemma_zero, mask_bit, words_for,
};
use crate::types::{Token, MAX_TOKENS};
use crate::count::{lemma_count_next, lemma_count_none};
use vstd::prelude::*;
use vstd::set_lib::set_int_range;
use vstd::std_specs::bits::u64_trailing_zeros;

verus! {

/// Above this many intervals a bitmap probe is cheaper than the range checks.
pub const MAX_SCAN_INTERVALS: usize = 16;

/// Some interval holds `c`.
pub open spec fn covered(intervals: Seq<(Token, Token)>, c: int) -> bool {
    exists|k: int| 0 <= k < intervals.len() && #[trigger] holds(intervals[k], c)
}

/// The inclusive interval holds `c`.
pub open spec fn holds(interval: (Token, Token), c: int) -> bool {
    interval.0 <= c <= interval.1
}

/// Intervals are non-empty, ascending, and neither overlap nor touch.
pub open spec fn intervals_ok(intervals: Seq<(Token, Token)>) -> bool {
    &&& forall|k: int| 0 <= k < intervals.len() ==> (#[trigger] intervals[k]).0 <= intervals[k].1
    &&& forall|k: int, l: int|
        0 <= k < l < intervals.len() ==> (#[trigger] intervals[k]).1 + 1 < (
        #[trigger] intervals[l]).0
}

/// The number of codes below `n` in a set.
pub open spec fn members(set: spec_fn(int) -> bool, n: nat) -> nat
    decreases n,
{
    if n == 0 {
        0
    } else {
        members(set, (n - 1) as nat) + (if set(n - 1) {
            1nat
        } else {
            0nat
        })
    }
}

/// A maximal run of a set begins at `c`.
pub open spec fn begins_run(set: spec_fn(int) -> bool, c: int) -> bool {
    set(c) && (c == 0 || !set(c - 1))
}

/// The number of maximal runs of consecutive codes below `n` in a set.
pub open spec fn runs(set: spec_fn(int) -> bool, n: nat) -> nat
    decreases n,
{
    if n == 0 {
        0
    } else {
        runs(set, (n - 1) as nat) + (if begins_run(set, n - 1) {
            1nat
        } else {
            0nat
        })
    }
}

/// The codes whose bit is set.
pub open spec fn marked_by(mask: Seq<u64>) -> spec_fn(int) -> bool {
    |c: int| mask_bit(mask, c)
}

/// Sets that agree below `n` have as many codes and runs there.
pub proof fn lemma_same_set(a: spec_fn(int) -> bool, b: spec_fn(int) -> bool, n: nat)
    requires
        forall|c: int| 0 <= c < n ==> #[trigger] a(c) == b(c),
    ensures
        members(a, n) == members(b, n),
        runs(a, n) == runs(b, n),
    decreases n,
{
    if n > 0 {
        lemma_same_set(a, b, (n - 1) as nat);
        assert(a(n - 1) == b(n - 1));
        if n > 1 {
            assert(a(n - 2) == b(n - 2));
        }
    }
}

/// A set without codes from `n` on has as many below any later bound.
pub proof fn lemma_no_more_members(set: spec_fn(int) -> bool, n: nat, m: nat)
    requires
        n <= m,
        forall|c: int| n <= c < m ==> !#[trigger] set(c),
    ensures
        members(set, m) == members(set, n),
    decreases m,
{
    if n < m {
        lemma_no_more_members(set, n, (m - 1) as nat);
        assert(!set(m - 1));
    }
}

/// Maximal runs of consecutive set bits, as inclusive code intervals.
pub fn bitmap_to_intervals(set: &[u64], ntokens: usize) -> (out: Vec<(Token, Token)>)
    requires
        ntokens <= 64 * set@.len(),
        ntokens <= MAX_TOKENS,
    ensures
        intervals_ok(out@),
        forall|c: int| #[trigger] covered(out@, c) <==> 0 <= c < ntokens && mask_bit(set@, c),
        out@.len() == runs(marked_by(set@), ntokens as nat),
{
    let mut out: Vec<(Token, Token)> = Vec::new();
    let mut run: Option<usize> = None;
    let mut c: usize = 0;
    while c < ntokens
        invariant
            c <= ntokens,
            ntokens <= 64 * set@.len(),
            ntokens <= MAX_TOKENS,
            intervals_ok(out@),
            out@.len() + (if run is Some {
                1int
            } else {
                0int
            }) == runs(marked_by(set@), c as nat),
            forall|k: int| 0 <= k < out@.len() ==> (#[trigger] out@[k]).1 < c,
            run matches Some(start) ==> start < c && (out@.len() > 0 ==> out@[out@.len() - 1].1 + 1
                < start) && forall|i: int| start <= i < c ==> #[trigger] mask_bit(set@, i),
            run is None ==> (out@.len() > 0 ==> out@[out@.len() - 1].1 + 1 <= c) && (c > 0
                ==> !mask_bit(set@, c - 1)),
            forall|i: int|
                #![trigger mask_bit(set@, i)]
                #![trigger covered(out@, i)]
                0 <= i < (match run {
                    Some(start) => start as int,
                    None => c as int,
                }) ==> (covered(out@, i) <==> mask_bit(set@, i)),
        decreases ntokens - c,
    {
        let b: bool = get_bit(set, c);
        proof {
            if c > 0 && run is Some {
                assert(mask_bit(set@, c - 1));
            }
        }
        match run {
            None => {
                if b {
                    proof {
                        if out@.len() > 0 {
                            let last = out@[out@.len() - 1];
                            if last.1 + 1 == c {
                                assert(holds(last, c - 1));
                                assert(covered(out@, c - 1));
                                assert(!mask_bit(set@, c - 1));
                            }
                        }
                    }
                    run = Some(c);
                } else {
                    assert(!covered(out@, c as int)) by {
                        if covered(out@, c as int) {
                            let k = choose|k: int|
                                0 <= k < out@.len() && #[trigger] holds(out@[k], c as int);
                            assert(out@[k].1 < c);
                        }
                    }
                }
            },
            Some(start) => {
                if !b {
                    let ghost before = out@;
                    out.push((start as Token, (c - 1) as Token));
                    run = None;
                    proof {
                        let item = (start as Token, (c - 1) as Token);
                        assert(out@ == before.push(item));
                        assert forall|k: int, l: int| 0 <= k < l < out@.len() implies (
                        #[trigger] out@[k]).1 + 1 < (#[trigger] out@[l]).0 by {
                            if l == before.len() && k < before.len() - 1 {
                                assert(before[k].1 + 1 < before[before.len() - 1].0);
                            }
                        }
                        assert forall|i: int| 0 <= i <= c implies (#[trigger] covered(out@, i)
                            <==> mask_bit(set@, i)) by {
                            if i < start {
                                if covered(before, i) {
                                    let k = choose|k: int|
                                        0 <= k < before.len() && #[trigger] holds(before[k], i);
                                    assert(holds(out@[k], i));
                                }
                                if covered(out@, i) {
                                    let k = choose|k: int|
                                        0 <= k < out@.len() && #[trigger] holds(out@[k], i);
                                    assert(holds(before[k], i));
                                }
                                assert(covered(before, i) <==> mask_bit(set@, i));
                            } else if i < c {
                                assert(holds(out@[before.len() as int], i));
                                assert(mask_bit(set@, i));
                            } else {
                                if covered(out@, i) {
                                    let k = choose|k: int|
                                        0 <= k < out@.len() && #[trigger] holds(out@[k], i);
                                    assert(out@[k].1 < c);
                                }
                            }
                        }
                    }
                }
            },
        }
        c = c + 1;
    }
    let ghost before = out@;
    let ghost open_run = run;
    match run {
        Some(start) => {
            out.push((start as Token, (ntokens - 1) as Token));
        },
        None => {},
    }
    proof {
        match open_run {
            Some(start) => {
                let item = (start as Token, (ntokens - 1) as Token);
                assert(out@ == before.push(item));
                assert forall|k: int, l: int| 0 <= k < l < out@.len() implies (#[trigger] out@[k]).1
                    + 1 < (#[trigger] out@[l]).0 by {
                    if l == before.len() && k < before.len() - 1 {
                        assert(before[k].1 + 1 < before[before.len() - 1].0);
                    }
                }
                assert forall|i: int| 0 <= i < ntokens implies (#[trigger] covered(out@, i)
                    <==> mask_bit(set@, i)) by {
                    if i < start {
                        if covered(before, i) {
                            let k = choose|k: int|
                                0 <= k < before.len() && #[trigger] holds(before[k], i);
                            assert(holds(out@[k], i));
                        }
                        if covered(out@, i) {
                            let k = choose|k: int|
                                0 <= k < out@.len() && #[trigger] holds(out@[k], i);
                            assert(holds(before[k], i));
                        }
                        assert(covered(before, i) <==> mask_bit(set@, i));
                    } else {
                        assert(holds(out@[before.len() as int], i));
                        assert(mask_bit(set@, i));
                    }
                }
            },
            None => {},
        }
        assert forall|i: int| #[trigger] covered(out@, i) implies 0 <= i < ntokens by {
            let k = choose|k: int| 0 <= k < out@.len() && #[trigger] holds(out@[k], i);
            assert(out@[k].1 < ntokens);
        }
    }
    out
}

/// Whether some interval holds `c`.
fn in_intervals(intervals: &Vec<(Token, Token)>, c: Token) -> (r: bool)
    ensures
        r == covered(intervals@, c as int),
{
    let mut k: usize = 0;
    while k < intervals.len()
        invariant
            k <= intervals@.len(),
            forall|l: int| 0 <= l < k ==> !#[trigger] holds(intervals@[l], c as int),
        decreases intervals@.len() - k,
    {
        let (lo, hi) = intervals[k];
        if lo <= c && c <= hi {
            assert(holds(intervals@[k as int], c as int));
            return true;
        }
        k = k + 1;
    }
    false
}

/// How membership is tested.
enum Kind {
    /// Few intervals: range checks.
    Intervals(Vec<(Token, Token)>),
    /// Any set: one bit per possible code.
    Bitmap(Vec<u64>),
}

/// A set of codes that a scan tests a stream against.
pub struct Filter {
    kind: Kind,
}

impl Filter {
    /// The set holds `c`.
    pub closed spec fn admits(&self, c: int) -> bool {
        match self.kind {
            Kind::Intervals(iv) => covered(iv@, c),
            Kind::Bitmap(bm) => mask_bit(bm@, c),
        }
    }

    /// A bitmap has a bit for every code.
    pub closed spec fn wf(&self) -> bool {
        match self.kind {
            Kind::Intervals(iv) => intervals_ok(iv@) && iv@.len() <= MAX_SCAN_INTERVALS,
            Kind::Bitmap(bm) => bm@.len() == 1024,
        }
    }

    /// The membership test is a chain of range checks.
    pub closed spec fn by_intervals(&self) -> bool {
        self.kind is Intervals
    }

    /// The set of the codes below `ntokens` whose bit is set.
    pub fn from_bitmap(set: &[u64], ntokens: usize) -> (f: Filter)
        requires
            ntokens <= 64 * set@.len(),
            ntokens <= MAX_TOKENS,
            set@.len() <= 1024,
        ensures
            f.wf(),
            forall|c: int| 0 <= c < ntokens ==> #[trigger] f.admits(c) == mask_bit(set@, c),
            f.by_intervals() <==> runs(marked_by(set@), ntokens as nat) <= 16,
    {
        let intervals = bitmap_to_intervals(set, ntokens);
        if intervals.len() <= MAX_SCAN_INTERVALS {
            return Filter { kind: Kind::Intervals(intervals) };
        }
        let mut bm: Vec<u64> = vec![0u64; 1024];
        let mut w: usize = 0;
        while w < set.len()
            invariant
                w <= set@.len() <= 1024,
                bm@.len() == 1024,
                forall|k: int| 0 <= k < w ==> #[trigger] bm@[k] == set@[k],
            decreases set@.len() - w,
        {
            bm.set(w, set[w]);
            w = w + 1;
        }
        Filter { kind: Kind::Bitmap(bm) }
    }

    /// Whether the set holds `c`.
    pub fn test(&self, c: Token) -> (r: bool)
        requires
            self.wf(),
        ensures
            r == self.admits(c as int),
    {
        match &self.kind {
            Kind::Intervals(iv) => in_intervals(iv, c),
            Kind::Bitmap(bm) => get_bit(bm.as_slice(), c as usize),
        }
    }

    /// How the scan tests membership, for diagnostics.
    pub fn strategy(&self) -> (r: &'static str)
        ensures
            r@ == (if self.by_intervals() {
                "simd-intervals"@
            } else {
                "bitmap"@
            }),
    {
        match &self.kind {
            Kind::Intervals(_) => "simd-intervals",
            Kind::Bitmap(_) => "bitmap",
        }
    }

    /// Sets bit `i` of `mask` for every code `codes[i]` that the set holds, and
    /// clears it for every other. The words that the codes reach are
    /// overwritten; bits past the last code come out clear.
    pub fn candidate_mask(&self, codes: &[Token], mask: &mut Vec<u64>)
        requires
            self.wf(),
            old(mask)@.len() >= words_for(codes@.len() as int),
        ensures
            final(mask)@.len() == old(mask)@.len(),
            forall|i: int|
                0 <= i < codes@.len() ==> #[trigger] mask_bit(final(mask)@, i) == self.admits(
                    codes@[i] as int,
                ),
            forall|i: int|
                codes@.len() <= i < 64 * words_for(codes@.len() as int) ==> !#[trigger] mask_bit(
                    final(mask)@,
                    i,
                ),
            forall|w: int|
                words_for(codes@.len() as int) <= w < old(mask)@.len() ==> #[trigger] final(mask)@[w] == old(mask)@[w],
    {
        let n: usize = codes.len();
        let ghost words = words_for(n as int);
        let mut w: usize = 0;
        let mut at: usize = 0;
        while at < n
            invariant
                self.wf(),
                n == codes@.len(),
                words == words_for(n as int),
                mask@.len() == old(mask)@.len(),
                mask@.len() >= words,
                at == (if 64 * w < n {
                    64 * w
                } else {
                    n as int
                }),
                0 <= w <= words,
                forall|i: int|
                    0 <= i < at ==> #[trigger] mask_bit(mask@, i) == self.admits(codes@[i] as int),
                forall|i: int| n <= i < 64 * w ==> !#[trigger] mask_bit(mask@, i),
                forall|k: int| words <= k < mask@.len() ==> #[trigger] mask@[k] == old(mask)@[k],
            decreases n - at,
        {
            let width: usize = if n - at < 64 {
                n - at
            } else {
                64
            };
            let mut word: u64 = 0;
            let mut b: usize = 0;
            proof {
                assert forall|j: int| 0 <= j < 64 implies !#[trigger] bit(word, j) by {
                    lemma_zero(j);
                }
            }
            while b < width
                invariant
                    self.wf(),
                    n == codes@.len(),
                    b <= width <= 64,
                    at + width <= n,
                    forall|j: int|
                        0 <= j < b ==> #[trigger] bit(word, j) == self.admits(
                            codes@[at + j] as int,
                        ),
                    forall|j: int| b <= j < 64 ==> !#[trigger] bit(word, j),
                decreases width - b,
            {
                if self.test(codes[at + b]) {
                    let ghost before = word;
                    word = word | (1u64 << (b as u64));
                    proof {
                        assert forall|j: int| 0 <= j < 64 implies #[trigger] bit(word, j) == (j == b
                            || bit(before, j)) by {
                            lemma_set(before, b as int, j);
                        }
                    }
                }
                b = b + 1;
            }
            let ghost before = mask@;
            mask.set(w, word);
            proof {
                assert forall|i: int| 0 <= i < at + width implies #[trigger] mask_bit(mask@, i)
                    == self.admits(codes@[i] as int) by {
                    if i < at {
                        assert(mask_bit(before, i) == self.admits(codes@[i] as int));
                        assert(i / 64 != w);
                    } else {
                        assert(i / 64 == w);
                        assert(bit(word, i - at) == self.admits(codes@[at + (i - at)] as int));
                    }
                }
                assert forall|i: int| n <= i < 64 * (w + 1) implies !#[trigger] mask_bit(
                    mask@,
                    i,
                ) by {
                    assert(i / 64 == w);
                    assert(!bit(word, i % 64));
                }
            }
            w = w + 1;
            at = at + width;
        }
    }
}

/// A window of `combo` codes from `i` on lies in the stream and in the set.
pub open spec fn window(f: &Filter, codes: Seq<Token>, combo: int, i: int) -> bool {
    &&& i + combo <= codes.len()
    &&& forall|k: int| i <= k < i + combo ==> #[trigger] f.admits(codes[k] as int)
}

/// The candidate mask and-ed with its shifts: bit `i` is set exactly when
/// `codes[i..i + combo]` all lie in the set.
pub fn combined_mask(f: &Filter, codes: &[Token], combo: usize) -> (combined: Vec<u64>)
    requires
        f.wf(),
        1 <= combo <= 63,
    ensures
        combined@.len() == words_for(codes@.len() as int),
        forall|i: int|
            0 <= i < 64 * combined@.len() ==> #[trigger] mask_bit(combined@, i) == window(
                f,
                codes@,
                combo as int,
                i,
            ),
{
    let n: usize = codes.len();
    let words: usize = n / 64 + (if n % 64 == 0 {
        0usize
    } else {
        1usize
    });
    let mut mask: Vec<u64> = vec![0u64; words];
    f.candidate_mask(codes, &mut mask);
    let ghost m = mask@;
    let ghost cs = codes@;
    assert(words == words_for(n as int));
    let mut combined: Vec<u64> = Vec::new();
    let mut w: usize = 0;
    while w < words
        invariant
            w <= words,
            words == words_for(n as int),
            mask@.len() == words,
            m == mask@,
            cs == codes@,
            n == cs.len(),
            1 <= combo <= 63,
            forall|i: int|
                0 <= i < n ==> #[trigger] mask_bit(m, i) == f.admits(cs[i] as int),
            forall|i: int| n <= i < 64 * words ==> !#[trigger] mask_bit(m, i),
            combined@.len() == w,
            forall|i: int|
                0 <= i < 64 * w ==> #[trigger] mask_bit(combined@, i) == window(
                    f,
                    cs,
                    combo as int,
                    i,
                ),
        decreases words - w,
    {
        let mut word: u64 = mask[w];
        let mut shift: usize = 1;
        proof {
            assert forall|j: int| 0 <= j < 64 implies #[trigger] bit(word, j) == window(
                f,
                cs,
                1,
                w * 64 + j,
            ) by {
                let i = w * 64 + j;
                assert(i / 64 == w && i % 64 == j);
                assert(mask_bit(m, i) == bit(word, j));
                if i < n {
                    if window(f, cs, 1, i) {
                        assert(f.admits(cs[i] as int));
                    }
                }
            }
        }
        while shift < combo
            invariant
                w < words,
                words == words_for(n as int),
                mask@.len() == words,
                m == mask@,
                cs == codes@,
                n == cs.len(),
                1 <= shift <= combo <= 63,
                forall|i: int|
                    0 <= i < n ==> #[trigger] mask_bit(m, i) == f.admits(cs[i] as int),
                forall|i: int| n <= i < 64 * words ==> !#[trigger] mask_bit(m, i),
                forall|j: int|
                    0 <= j < 64 ==> #[trigger] bit(word, j) == window(
                        f,
                        cs,
                        shift as int,
                        w * 64 + j,
                    ),
            decreases combo - shift,
        {
            let lo: u64 = mask[w] >> (shift as u64);
            let hi: u64 = if w + 1 < words {
                mask[w + 1] << ((64 - shift) as u64)
            } else {
                0
            };
            let ghost before = word;
            word = word & (lo | hi);
            proof {
                assert forall|j: int| 0 <= j < 64 implies #[trigger] bit(word, j) == window(
                    f,
                    cs,
                    shift + 1,
                    w * 64 + j,
                ) by {
                    let i = w * 64 + j;
                    lemma_and(before, lo | hi, j);
                    lemma_or(lo, hi, j);
                    lemma_shr(m[w as int], shift as int, j);
                    if w + 1 < words {
                        lemma_shl(m[w + 1], 64 - shift, j);
                    } else {
                        lemma_zero(j);
                    }
                    let next = i + shift;
                    if j + shift < 64 {
                        assert(next / 64 == w && next % 64 == j + shift);
                    } else {
                        assert(next / 64 == w + 1 && next % 64 == j + shift - 64);
                    }
                    if next < 64 * words {
                        assert(mask_bit(m, next) == bit(lo | hi, j));
                    }
                    assert(bit(before, j) == window(f, cs, shift as int, i));
                    if next < n {
                        if window(f, cs, shift + 1, i) {
                            assert(f.admits(cs[next] as int));
                            assert(window(f, cs, shift as int, i));
                        }
                        if window(f, cs, shift as int, i) && f.admits(cs[next] as int) {
                            assert forall|k: int| i <= k < i + shift + 1 implies #[trigger] f.admits(
                                cs[k] as int,
                            ) by {
                                if k == next {
                                } else {
                                    assert(f.admits(cs[k] as int));
                                }
                            }
                        }
                    }
                }
            }
            shift = shift + 1;
        }
        let ghost before = combined@;
        combined.push(word);
        proof {
            assert forall|i: int| 0 <= i < 64 * (w + 1) implies #[trigger] mask_bit(combined@, i)
                == window(f, cs, combo as int, i) by {
                if i < 64 * w {
                    assert(mask_bit(before, i) == window(f, cs, combo as int, i));
                } else {
                    assert(i / 64 == w);
                    assert(bit(word, i % 64) == window(f, cs, combo as int, w * 64 + i % 64));
                }
            }
        }
        w = w + 1;
    }
    combined
}

/// The next set bit of `mask` at or after `from` and below `limit`, or `limit`.
pub fn next_set_bit(mask: &[u64], from: usize, limit: usize) -> (r: usize)
    requires
        limit <= 64 * mask@.len(),
    ensures
        from <= limit ==> from <= r <= limit,
        from > limit ==> r == limit,
        r < limit ==> mask_bit(mask@, r as int),
        forall|i: int| from <= i < r ==> !#[trigger] mask_bit(mask@, i),
{
    if from >= limit {
        return limit;
    }
    let ghost m = mask@;
    let words: usize = mask.len();
    let mut w: usize = from / 64;
    let high: u64 = !0u64 << ((from % 64) as u64);
    let mut word: u64 = mask[w] & high;
    proof {
        assert forall|j: int| 0 <= j < 64 implies #[trigger] bit(word, j) == (w * 64 + j >= from
            && bit(m[w as int], j)) by {
            lemma_and(m[w as int], high, j);
            lemma_high_ones((from % 64) as int, j);
        }
    }
    loop
        invariant
            m == mask@,
            words == m.len(),
            from < limit <= 64 * m.len(),
            from / 64 <= w < m.len(),
            forall|j: int|
                0 <= j < 64 ==> #[trigger] bit(word, j) == (w * 64 + j >= from && bit(
                    m[w as int],
                    j,
                )),
            forall|i: int| from <= i < w * 64 ==> !#[trigger] mask_bit(m, i),
        decreases m.len() - w,
    {
        if word != 0 {
            let tz: usize = word.trailing_zeros() as usize;
            proof {
                lemma_lowest(word);
                assert(bit(word, tz as int));
                assert forall|i: int| from <= i < w * 64 + tz implies !#[trigger] mask_bit(m, i) by {
                    if i >= w * 64 {
                        assert(i / 64 == w);
                        assert(!bit(word, i % 64));
                    }
                }
                assert((w * 64 + tz) / 64 == w && (w * 64 + tz) % 64 == tz);
            }
            if w > limit / 64 || (w == limit / 64 && tz >= limit % 64) {
                return limit;
            }
            return w * 64 + tz;
        }
        proof {
            lemma_lowest(word);
            assert forall|i: int| from <= i < (w + 1) * 64 implies !#[trigger] mask_bit(m, i) by {
                if i >= w * 64 {
                    assert(i / 64 == w);
                    assert(!bit(word, i % 64));
                }
            }
        }
        w = w + 1;
        if w >= words {
            return limit;
        }
        word = mask[w];
    }
}

/// The number of set bits of a word, counted by clearing the lowest in turn.
pub open spec fn ones(w: u64) -> nat
    decreases w,
    via ones_decreases
{
    if w == 0 {
        0
    } else {
        1 + ones((w & ((w - 1) as u64)))
    }
}

#[via_fn]
proof fn ones_decreases(w: u64) {
    bv_clear_lowest(w);
}

proof fn bv_clear_lowest(w: u64)
    by (bit_vector)
    ensures
        w != 0 ==> w & ((w - 1) as u64) < w,
{
}

proof fn bv_clear_keeps_high(w: u64, k: u64)
    by (bit_vector)
    requires
        w != 0,
        k < 64,
        w << k == 0,
    ensures
        (w & ((w - 1) as u64)) << ((k - 1) as u64) == 0,
        k > 0,
{
}

/// A word whose set bits all lie in its highest `k` places has at most `k`.
pub proof fn lemma_ones_bound(w: u64, k: nat)
    requires
        k <= 64,
        k < 64 ==> w << (k as u64) == 0,
    ensures
        ones(w) <= k,
    decreases k,
{
    if w != 0 {
        if k == 64 {
            bv_clear_one(w);
            lemma_ones_bound(w & ((w - 1) as u64), 63);
        } else {
            bv_clear_keeps_high(w, k as u64);
            lemma_ones_bound(w & ((w - 1) as u64), (k - 1) as nat);
        }
    }
}

proof fn bv_clear_one(w: u64)
    by (bit_vector)
    requires
        w != 0,
    ensures
        (w & ((w - 1) as u64)) << 63u64 == 0,
{
}

/// The number of set bits of a word below place `k`.
spec fn ones_below(w: u64, k: nat) -> nat
    decreases k,
{
    if k == 0 {
        0
    } else {
        ones_below(w, (k - 1) as nat) + (if bit(w, k - 1) {
            1nat
        } else {
            0nat
        })
    }
}

proof fn bv_clear_bit(w: u64, j: u64)
    by (bit_vector)
    requires
        w != 0,
        j < 64,
    ensures
        ((w & ((w - 1) as u64)) >> j) & 1 == 1 <==> (w >> j) & 1 == 1 && w & (((1u64 << j) - 1) as u64)
            != 0,
{
}

proof fn bv_low_grows(w: u64, j: u64)
    by (bit_vector)
    requires
        j < 63,
    ensures
        w & (((1u64 << ((j + 1) as u64)) - 1) as u64) != 0 <==> w & (((1u64 << j) - 1) as u64) != 0
            || (w >> j) & 1 == 1,
        w & (((1u64 << 0u64) - 1) as u64) == 0,
{
}

/// Clearing the lowest set bit leaves one less below any place above it.
proof fn lemma_clear_below(w: u64, k: nat)
    requires
        w != 0,
        k <= 64,
    ensures
        ones_below(w & ((w - 1) as u64), k) == (if ones_below(w, k) == 0 {
            0
        } else {
            ones_below(w, k) - 1
        }),
        k < 64 ==> (w & (((1u64 << (k as u64)) - 1) as u64) != 0 <==> ones_below(w, k) > 0),
    decreases k,
{
    if k == 0 {
        bv_low_grows(w, 0);
    } else {
        let j = (k - 1) as nat;
        lemma_clear_below(w, j);
        bv_clear_bit(w, j as u64);
        if k < 64 {
            bv_low_grows(w, j as u64);
        }
    }
}

/// The set bits of a word are those of its places.
proof fn lemma_ones_places(w: u64)
    ensures
        ones(w) == ones_below(w, 64),
    decreases w,
{
    if w == 0 {
        lemma_none_below(64);
    } else {
        let v = w & ((w - 1) as u64);
        bv_clear_lowest(w);
        lemma_ones_places(v);
        lemma_clear_below(w, 64);
        lemma_lowest(w);
        lemma_some_below(w, 64, u64_trailing_zeros(w) as int);
    }
}

proof fn lemma_none_below(k: nat)
    requires
        k <= 64,
    ensures
        ones_below(0, k) == 0,
    decreases k,
{
    if k > 0 {
        lemma_none_below((k - 1) as nat);
        lemma_zero(k - 1);
    }
}

proof fn lemma_some_below(w: u64, k: nat, j: int)
    requires
        0 <= j < k,
        bit(w, j),
    ensures
        ones_below(w, k) > 0,
    decreases k,
{
    if j < k - 1 {
        lemma_some_below(w, (k - 1) as nat, j);
    }
}

proof fn lemma_word_members(mask: Seq<u64>, w: nat, k: nat)
    requires
        k <= 64,
    ensures
        members(marked_by(mask), 64 * w + k) == members(marked_by(mask), 64 * w) + ones_below(
            mask[w as int],
            k,
        ),
    decreases k,
{
    if k > 0 {
        lemma_word_members(mask, w, (k - 1) as nat);
        let i = 64 * w + k - 1;
        assert(i / 64 == w && i % 64 == k - 1);
        assert(marked_by(mask)(i) == bit(mask[w as int], k - 1));
    }
}

/// The set bits of a mask are the codes that it marks.
pub proof fn lemma_set_bits_are_members(mask: Seq<u64>, k: nat)
    ensures
        set_bits(mask, k) == members(marked_by(mask), 64 * k),
    decreases k,
{
    if k > 0 {
        lemma_set_bits_are_members(mask, (k - 1) as nat);
        lemma_ones_places(mask[k - 1]);
        lemma_word_members(mask, (k - 1) as nat, 64);
    }
}

/// The number of set bits of the first `k` words.
pub open spec fn set_bits(mask: Seq<u64>, k: nat) -> nat
    decreases k,
{
    if k == 0 {
        0
    } else {
        set_bits(mask, (k - 1) as nat) + ones(mask[k - 1])
    }
}

/// The number of set bits of a mask, or `usize::MAX` where it exceeds that.
pub fn count_set_bits(mask: &Vec<u64>) -> (n: usize)
    ensures
        n == (if set_bits(mask@, mask@.len()) <= usize::MAX {
            set_bits(mask@, mask@.len()) as int
        } else {
            usize::MAX as int
        }),
{
    let mut n: usize = 0;
    let mut k: usize = 0;
    while k < mask.len()
        invariant
            k <= mask@.len(),
            n == (if set_bits(mask@, k as nat) <= usize::MAX {
                set_bits(mask@, k as nat) as int
            } else {
                usize::MAX as int
            }),
        decreases mask@.len() - k,
    {
        let mut w: u64 = mask[k];
        let ghost total = set_bits(mask@, (k + 1) as nat);
        while w != 0
            invariant
                k < mask@.len(),
                total == set_bits(mask@, (k + 1) as nat),
                ones(w) <= total,
                n == (if total - ones(w) <= usize::MAX {
                    total - ones(w)
                } else {
                    usize::MAX as int
                }),
            decreases w,
        {
            proof {
                bv_clear_lowest(w);
            }
            w = w & (w - 1);
            n = n.saturating_add(1);
        }
        k = k + 1;
    }
    n
}

/// The codes of a set are counted one by one, and so are its maximal runs, by
/// the code that each begins with.
pub proof fn lemma_members_and_runs_counted(set: spec_fn(int) -> bool, n: nat)
    ensures
        members(set, n) == set_int_range(0, n as int).filter(set).len(),
        runs(set, n) == set_int_range(0, n as int).filter(
            |c: int| set(c) && (c == 0 || !set(c - 1)),
        ).len(),
    decreases n,
{
    let f = |c: int| set(c) && (c == 0 || !set(c - 1));
    if n == 0 {
        lemma_count_none(set);
        lemma_count_none(f);
    } else {
        lemma_members_and_runs_counted(set, (n - 1) as nat);
        lemma_count_next(n - 1, set);
        lemma_count_next(n - 1, f);
    }
}

/// A list of intervals covers a code just when the code is between the ends of
/// one. In order means that each begins at least two past the end of the one
/// before it, so that they are maximal runs of what they cover.
pub proof fn lemma_intervals_mean(intervals: Seq<(Token, Token)>, c: int)
    ensures
        covered(intervals, c) <==> exists|k: int|
            0 <= k < intervals.len() && (#[trigger] intervals[k]).0 <= c && c <= intervals[k].1,
        intervals_ok(intervals) ==> forall|k: int|
            0 <= k < intervals.len() ==> {
                &&& (#[trigger] intervals[k]).0 <= intervals[k].1
                &&& !covered(intervals, intervals[k].0 - 1)
                &&& !covered(intervals, intervals[k].1 + 1)
            },
{
    if covered(intervals, c) {
        let k = choose|k: int| 0 <= k < intervals.len() && #[trigger] holds(intervals[k], c);
        assert(intervals[k].0 <= c && c <= intervals[k].1);
    }
    if exists|k: int|
        0 <= k < intervals.len() && (#[trigger] intervals[k]).0 <= c && c <= intervals[k].1 {
        let k = choose|k: int|
            0 <= k < intervals.len() && (#[trigger] intervals[k]).0 <= c && c <= intervals[k].1;
        assert(holds(intervals[k], c));
    }
    if intervals_ok(intervals) {
        assert forall|k: int| 0 <= k < intervals.len() implies {
            &&& (#[trigger] intervals[k]).0 <= intervals[k].1
            &&& !covered(intervals, intervals[k].0 - 1)
            &&& !covered(intervals, intervals[k].1 + 1)
        } by {
            if covered(intervals, intervals[k].0 - 1) {
                let l = choose|l: int|
                    0 <= l < intervals.len() && #[trigger] holds(
                        intervals[l],
                        intervals[k].0 - 1,
                    );
                if l < k {
                    assert(intervals[l].1 + 1 < intervals[k].0);
                } else if k < l {
                    assert(intervals[k].1 + 1 < intervals[l].0);
                }
            }
            if covered(intervals, intervals[k].1 + 1) {
                let l = choose|l: int|
                    0 <= l < intervals.len() && #[trigger] holds(
                        intervals[l],
                        intervals[k].1 + 1,
                    );
                if l < k {
                    assert(intervals[l].1 + 1 < intervals[k].0);
                } else if k < l {
                    assert(intervals[k].1 + 1 < intervals[l].0);
                }
            }
        }
    }
}

/// A window is a stretch of the stream whose codes are all in the set.
pub proof fn lemma_window_means(f: &Filter, codes: Seq<Token>, combo: int, i: int)
    ensures
        window(f, codes, combo, i) <==> i + combo <= codes.len() && forall|k: int|
            i <= k < i + combo ==> f.admits(#[trigger] codes[k] as int),
{
    if window(f, codes, combo, i) {
        assert forall|k: int| i <= k < i + combo implies f.admits(#[trigger] codes[k] as int) by {}
    }
    if i + combo <= codes.len() && forall|k: int|
        i <= k < i + combo ==> f.admits(#[trigger] codes[k] as int) {
        assert forall|k: int| i <= k < i + combo implies #[trigger] f.admits(codes[k] as int) by {}
    }
}

/// Intervals in order ascend, and a mask marks the codes whose bit is set.
pub proof fn lemma_intervals_ascend(intervals: Seq<(Token, Token)>, mask: Seq<u64>, c: int)
    ensures
        intervals_ok(intervals) <==> {
            &&& forall|k: int|
                0 <= k < intervals.len() ==> (#[trigger] intervals[k]).0 <= intervals[k].1
            &&& forall|k: int, l: int|
                0 <= k < l < intervals.len() ==> (#[trigger] intervals[k]).1 + 2 <= (
                #[trigger] intervals[l]).0
        },
        marked_by(mask)(c) <==> (mask[c / 64] >> ((c % 64) as u64)) & 1 == 1,
{
}

} // verus!
