//! Code-domain prefilter: prove that a row does not contain the pattern
//! without running the automaton.
//!
//! Fix an anchor position in the pattern. In any occurrence some token covers
//! the byte at that position, and must agree with the pattern on every byte of
//! their overlap. The codes for which some placement agrees are computable
//! from the dictionary alone, and a row that holds none of them cannot match.
//! The candidate set is built for every anchor, and the one that fires least
//! often on the stream is kept.

use crate::bits::{get_bit, lemma_mask_zero, mask_bit, set_bit, words_for};
use crate::dictionary::{
    codes_ok, decode, dict_ok, lemma_start, locate, start, token_at, token_count, tokens_of,
};
use crate::query::filter::{
    count_set_bits, lemma_no_more_members, lemma_same_set, lemma_set_bits_are_members, marked_by,
    members, runs, set_bits, Filter, MAX_SCAN_INTERVALS,
};
use crate::query::stats::{approx, CodeStats};
use crate::text::{contains, occurs_at};
use crate::types::{Token, MAX_TOKENS};
use crate::count::{lemma_count_next, lemma_count_none, lemma_count_same};
use crate::query::filter::lemma_members_and_runs_counted;
use vstd::prelude::*;
use vstd::set_lib::set_int_range;

verus! {

/// At most about this many codes are sampled from the stream to score anchors.
pub const FREQ_SAMPLES: usize = 65536;

/// A token placed at offset `s` from the pattern's start agrees with the
/// pattern on every byte of their overlap.
pub open spec fn agrees(token: Seq<u8>, pattern: Seq<u8>, s: int) -> bool {
    forall|j: int|
        0 <= j < pattern.len() && s <= j < s + token.len() ==> token[j - s]
            == #[trigger] pattern[j]
}

/// Some placement of the token covers the anchor and agrees with the pattern.
pub open spec fn covers_anchor(token: Seq<u8>, pattern: Seq<u8>, i: int) -> bool {
    exists|s: int| s <= i < s + token.len() && #[trigger] agrees(token, pattern, s)
}

/// The codes that can cover anchor `i`.
pub open spec fn anchor_set(pattern: Seq<u8>, tokens: Seq<Seq<u8>>, i: int) -> spec_fn(int) -> bool {
    |c: int| 0 <= c < tokens.len() && covers_anchor(tokens[c], pattern, i)
}

/// `sets[i]` marks the codes that can cover anchor `i`, and no others.
pub open spec fn are_anchor_sets(
    sets: Seq<Vec<u64>>,
    pattern: Seq<u8>,
    tokens: Seq<Seq<u8>>,
    words: int,
) -> bool {
    &&& sets.len() == pattern.len()
    &&& forall|i: int| 0 <= i < sets.len() ==> (#[trigger] sets[i])@.len() == words
    &&& forall|i: int, c: int|
        0 <= i < sets.len() && 0 <= c < 64 * words ==> #[trigger] mask_bit(sets[i]@, c) == (c
            < tokens.len() && covers_anchor(tokens[c], pattern, i))
}

/// Whether the token agrees with the pattern when its last byte stands `t`
/// bytes after the pattern's first.
fn placement_agrees(token: &[u8], pattern: &[u8], t: u128) -> (r: bool)
    requires
        token@.len() > 0,
        t < token@.len() + pattern@.len() - 1,
    ensures
        r == agrees(token@, pattern@, t + 1 - token@.len()),
{
    let len: u128 = token.len() as u128;
    let m: u128 = pattern.len() as u128;
    let ghost s = t + 1 - len;
    let lo: u128 = if t + 1 >= len {
        t + 1 - len
    } else {
        0
    };
    let hi: u128 = if t + 1 < m {
        t + 1
    } else {
        m
    };
    let mut j: u128 = lo;
    while j < hi
        invariant
            len == token@.len(),
            m == pattern@.len(),
            s == t + 1 - len,
            len > 0,
            t < len + m - 1,
            len <= usize::MAX,
            m <= usize::MAX,
            lo == (if s > 0 {
                s
            } else {
                0
            }),
            hi == (if t + 1 < m {
                t + 1
            } else {
                m as int
            }),
            lo <= j,
            j <= hi || j == lo,
            forall|k: int| lo <= k < j ==> token@[k - s] == #[trigger] pattern@[k],
        decreases hi - j,
    {
        if token[(j + len - 1 - t) as usize] != pattern[j as usize] {
            assert(token@[j - s] != pattern@[j as int]);
            return false;
        }
        j = j + 1;
    }
    true
}

/// The candidate set of every anchor.
pub fn anchor_candidates(pattern: &[u8], dict_bytes: &[u8], dict_offsets: &[u32]) -> (sets: Vec<
    Vec<u64>,
>)
    requires
        dict_ok(dict_bytes@, dict_offsets@),
    ensures
        are_anchor_sets(
            sets@,
            pattern@,
            tokens_of(dict_bytes@, dict_offsets@),
            words_for(tokens_of(dict_bytes@, dict_offsets@).len() as int),
        ),
{
    let ghost p = pattern@;
    let ghost toks = tokens_of(dict_bytes@, dict_offsets@);
    let m: usize = pattern.len();
    let n: usize = token_count(dict_offsets);
    let words: usize = n / 64 + (if n % 64 == 0 {
        0usize
    } else {
        1usize
    });
    let mut sets: Vec<Vec<u64>> = Vec::new();
    let mut i: usize = 0;
    while i < m
        invariant
            i <= m,
            words == words_for(n as int),
            n == toks.len(),
            sets@.len() == i,
            forall|k: int| 0 <= k < i ==> (#[trigger] sets@[k])@.len() == words,
            forall|k: int, c: int|
                0 <= k < i && 0 <= c < 64 * words ==> !#[trigger] mask_bit(sets@[k]@, c),
        decreases m - i,
    {
        let set: Vec<u64> = vec![0u64; words];
        proof {
            assert forall|c: int| 0 <= c < 64 * words implies !#[trigger] mask_bit(set@, c) by {
                lemma_mask_zero(set@, c);
            }
        }
        sets.push(set);
        i = i + 1;
    }
    let mut c: usize = 0;
    while c < n
        invariant
            c <= n,
            n == toks.len(),
            n <= MAX_TOKENS,
            toks == tokens_of(dict_bytes@, dict_offsets@),
            dict_ok(dict_bytes@, dict_offsets@),
            p == pattern@,
            m == p.len(),
            m <= usize::MAX,
            words == words_for(n as int),
            sets@.len() == m,
            forall|k: int| 0 <= k < m ==> (#[trigger] sets@[k])@.len() == words,
            forall|k: int, d: int|
                0 <= k < m && 0 <= d < 64 * words ==> #[trigger] mask_bit(sets@[k]@, d) == (d < c
                    && covers_anchor(toks[d], p, k)),
        decreases n - c,
    {
        let token = token_at(dict_bytes, dict_offsets, c);
        let len: usize = token.len();
        proof {
            crate::query::sparse::lemma_token_len(dict_bytes@, dict_offsets@, c as int);
        }
        let mut t: u128 = 0;
        let last: u128 = m as u128 + len as u128 - 1;
        while t < last
            invariant
                c < n,
                n == toks.len(),
                n <= MAX_TOKENS,
                p == pattern@,
                m == p.len(),
                m <= usize::MAX,
                token@ == toks[c as int],
                len == token@.len(),
                0 < len <= u32::MAX,
                words == words_for(n as int),
                sets@.len() == m,
                last == m + len - 1,
                t <= last,
                forall|k: int| 0 <= k < m ==> (#[trigger] sets@[k])@.len() == words,
                forall|k: int, d: int|
                    0 <= k < m && 0 <= d < 64 * words && d != c ==> #[trigger] mask_bit(sets@[k]@, d) == (d
                        < c && covers_anchor(toks[d], p, k)),
                forall|k: int|
                    0 <= k < m ==> #[trigger] mask_bit(sets@[k]@, c as int) == placed_before(
                        token@,
                        p,
                        k,
                        t as int,
                    ),
            decreases last - t,
        {
            if m > 0 && placement_agrees(token, pattern, t) {
                let lo: usize = if t + 1 >= len as u128 {
                    (t + 1 - len as u128) as usize
                } else {
                    0
                };
                let hi: usize = if t + 1 < m as u128 {
                    (t + 1) as usize
                } else {
                    m
                };
                let mut k: usize = lo;
                let ghost start_sets = sets@;
                while k < hi
                    invariant
                        c < n,
                        n == toks.len(),
                        m == p.len(),
                        words == words_for(n as int),
                        sets@.len() == m,
                        start_sets.len() == m,
                        hi <= m,
                        lo <= k,
                        k <= hi || k == lo,
                        forall|q: int| 0 <= q < m ==> (#[trigger] sets@[q])@.len() == words,
                        forall|q: int, d: int|
                            0 <= q < m && 0 <= d < 64 * words ==> #[trigger] mask_bit(sets@[q]@, d)
                                == mask_bit(start_sets[q]@, d) || (d == c && lo <= q < k && mask_bit(
                                sets@[q]@,
                                d,
                            )),
                        forall|q: int|
                            lo <= q < k ==> #[trigger] mask_bit(sets@[q]@, c as int),
                    decreases hi - k,
                {
                    let ghost prev = sets@;
                    let mut set: Vec<u64> = Vec::new();
                    std::mem::swap(&mut set, &mut sets[k]);
                    set_bit(&mut set, c);
                    std::mem::swap(&mut set, &mut sets[k]);
                    proof {
                        assert forall|q: int| 0 <= q < m implies (#[trigger] sets@[q])@.len()
                            == words by {
                            if q != k {
                                assert(sets@[q] == prev[q]);
                            }
                        }
                        assert forall|q: int, d: int| 0 <= q < m && 0 <= d < 64 * words implies (
                        #[trigger] mask_bit(sets@[q]@, d) == mask_bit(start_sets[q]@, d) || (d == c
                            && lo <= q < k + 1 && mask_bit(sets@[q]@, d))) by {
                            if q != k {
                                assert(sets@[q] == prev[q]);
                            }
                            assert(mask_bit(prev[q]@, d) == mask_bit(start_sets[q]@, d) || (d == c
                                && lo <= q < k && mask_bit(prev[q]@, d)));
                        }
                        assert forall|q: int| lo <= q < k + 1 implies #[trigger] mask_bit(
                            sets@[q]@,
                            c as int,
                        ) by {
                            if q != k {
                                assert(sets@[q] == prev[q]);
                            }
                        }
                    }
                    k = k + 1;
                }
                proof {
                    let s = t + 1 - len;
                    assert forall|q: int| 0 <= q < m implies #[trigger] mask_bit(
                        sets@[q]@,
                        c as int,
                    ) == placed_before(token@, p, q, t + 1) by {
                        lemma_placed_step(token@, p, q, t as int);
                        assert(mask_bit(start_sets[q]@, c as int) == placed_before(
                            token@,
                            p,
                            q,
                            t as int,
                        ));
                        if lo <= q < hi {
                            assert(s <= q < s + len);
                        }
                    }
                    assert forall|q: int, d: int| 0 <= q < m && 0 <= d < 64 * words && d != c implies (
                    #[trigger] mask_bit(sets@[q]@, d) == (d < c && covers_anchor(toks[d], p, q))) by {
                        assert(mask_bit(start_sets[q]@, d) == (d < c && covers_anchor(
                            toks[d],
                            p,
                            q,
                        )));
                    }
                }
            } else {
                proof {
                    assert forall|q: int| 0 <= q < m implies #[trigger] mask_bit(
                        sets@[q]@,
                        c as int,
                    ) == placed_before(token@, p, q, t + 1) by {
                        lemma_placed_step(token@, p, q, t as int);
                    }
                }
            }
            t = t + 1;
        }
        proof {
            assert forall|k: int, d: int| 0 <= k < m && 0 <= d < 64 * words implies #[trigger] mask_bit(
                sets@[k]@,
                d,
            ) == (d < c + 1 && covers_anchor(toks[d], p, k)) by {
                if d == c {
                    lemma_placed_all(token@, p, k, t as int);
                }
            }
        }
        c = c + 1;
    }
    sets
}

/// Some agreeing placement whose last byte stands before offset `t` covers the
/// anchor.
spec fn placed_before(token: Seq<u8>, pattern: Seq<u8>, i: int, t: int) -> bool {
    exists|s: int|
        s <= i < s + token.len() && s + token.len() - 1 < t && #[trigger] agrees(token, pattern, s)
}

proof fn lemma_placed_step(token: Seq<u8>, pattern: Seq<u8>, i: int, t: int)
    ensures
        placed_before(token, pattern, i, t + 1) == (placed_before(token, pattern, i, t) || ({
            let s = t + 1 - token.len();
            s <= i < s + token.len() && agrees(token, pattern, s)
        })),
{
    let s0 = t + 1 - token.len();
    if placed_before(token, pattern, i, t + 1) {
        let s = choose|s: int|
            s <= i < s + token.len() && s + token.len() - 1 < t + 1 && #[trigger] agrees(
                token,
                pattern,
                s,
            );
        if s != s0 {
            assert(placed_before(token, pattern, i, t));
        }
    }
    if placed_before(token, pattern, i, t) {
        let s = choose|s: int|
            s <= i < s + token.len() && s + token.len() - 1 < t && #[trigger] agrees(
                token,
                pattern,
                s,
            );
        assert(agrees(token, pattern, s));
    }
    if s0 <= i < s0 + token.len() && agrees(token, pattern, s0) {
        assert(placed_before(token, pattern, i, t + 1));
    }
}

proof fn lemma_placed_all(token: Seq<u8>, pattern: Seq<u8>, i: int, t: int)
    requires
        t >= pattern.len() + token.len() - 1,
        0 <= i < pattern.len(),
        token.len() > 0,
    ensures
        placed_before(token, pattern, i, t) == covers_anchor(token, pattern, i),
{
    if covers_anchor(token, pattern, i) {
        let s = choose|s: int| s <= i < s + token.len() && #[trigger] agrees(token, pattern, s);
        assert(s + token.len() - 1 < t);
    }
    if placed_before(token, pattern, i, t) {
        let s = choose|s: int|
            s <= i < s + token.len() && s + token.len() - 1 < t && #[trigger] agrees(
                token,
                pattern,
                s,
            );
        assert(agrees(token, pattern, s));
    }
}

/// A row that contains the pattern holds, for every anchor, a code that can
/// cover it.
pub proof fn lemma_anchor_is_necessary(
    pattern: Seq<u8>,
    tokens: Seq<Seq<u8>>,
    codes: Seq<Token>,
    i: int,
)
    requires
        codes_ok(codes, tokens.len()),
        contains(decode(tokens, codes), pattern),
        0 <= i < pattern.len(),
    ensures
        exists|k: int|
            0 <= k < codes.len() && covers_anchor(
                tokens[#[trigger] codes[k] as int],
                pattern,
                i,
            ),
{
    let text = decode(tokens, codes);
    let at = choose|at: int| occurs_at(text, pattern, at);
    let k = locate(tokens, codes, at + i);
    lemma_start(tokens, codes, k);
    let token = tokens[codes[k] as int];
    let s = start(tokens, codes, k) - at;
    assert(agrees(token, pattern, s)) by {
        assert forall|j: int| 0 <= j < pattern.len() && s <= j < s + token.len() implies token[j - s]
            == #[trigger] pattern[j] by {
            assert(text.subrange(at, at + pattern.len())[j] == pattern[j]);
            assert(text[start(tokens, codes, k) + (j - s)] == token[j - s]);
        }
    }
    assert(covers_anchor(token, pattern, i));
    assert(covers_anchor(tokens[codes[k] as int], pattern, i));
}

/// Where the frequency estimates of the anchors come from.
pub enum ScoreSource<'a> {
    /// An evenly strided sample of a code stream.
    SampledCodes(&'a [Token]),
    /// A stored frequency summary; no code stream is read.
    Stats(&'a CodeStats),
}

/// The distance between the sampled codes of a stream of `n`.
pub open spec fn stride_of(n: int) -> int {
    if n / FREQ_SAMPLES as int > 1 {
        n / FREQ_SAMPLES as int
    } else {
        1
    }
}

/// The number of codes sampled from a stream of `n`.
pub open spec fn sample_count(n: int) -> int {
    (n + stride_of(n) - 1) / stride_of(n)
}

/// The number of the first `k` sampled codes that lie in the set.
pub open spec fn sampled_hits(set: spec_fn(int) -> bool, codes: Seq<Token>, k: nat) -> nat
    decreases k,
{
    if k == 0 {
        0
    } else {
        sampled_hits(set, codes, (k - 1) as nat) + (if set(
            codes[(k - 1) * stride_of(codes.len() as int)] as int,
        ) {
            1nat
        } else {
            0nat
        })
    }
}

/// The approximate number of codes of the set's tokens below `k`.
pub open spec fn weighted_hits(set: spec_fn(int) -> bool, magnitudes: Seq<u8>, k: nat) -> nat
    decreases k,
{
    if k == 0 {
        0
    } else {
        weighted_hits(set, magnitudes, (k - 1) as nat) + (if set(k - 1) {
            approx(magnitudes[k - 1] as nat)
        } else {
            0
        })
    }
}

impl<'a> ScoreSource<'a> {
    /// The codes, or the tokens, are those of a dictionary of `ntokens`.
    pub open spec fn fits(&self, ntokens: nat) -> bool {
        match self {
            ScoreSource::SampledCodes(codes) => codes_ok(codes@, ntokens),
            ScoreSource::Stats(stats) => stats.wf() && stats.magnitudes().len() == ntokens,
        }
    }

    /// The estimated number of codes that hit the set.
    pub open spec fn hits(&self, set: spec_fn(int) -> bool) -> nat {
        match self {
            ScoreSource::SampledCodes(codes) => sampled_hits(
                set,
                codes@,
                sample_count(codes@.len() as int) as nat,
            ),
            ScoreSource::Stats(stats) => weighted_hits(
                set,
                stats.magnitudes(),
                stats.magnitudes().len(),
            ),
        }
    }

    /// The number of codes that the estimates are drawn from, at least 1.
    pub open spec fn total(&self) -> nat {
        let t = match self {
            ScoreSource::SampledCodes(codes) => sample_count(codes@.len() as int) as nat,
            ScoreSource::Stats(stats) => crate::query::stats::approx_sum(
                stats.magnitudes(),
                stats.magnitudes().len(),
            ),
        };
        if t < 1 {
            1
        } else {
            t
        }
    }
}

/// Sampling every `stride_of(n)`-th of `n` codes takes `sample_count(n)`.
proof fn lemma_samples(n: int, k: int)
    requires
        0 <= n,
        0 <= k,
    ensures
        stride_of(n) >= 1,
        sample_count(n) >= 0,
        k < sample_count(n) <==> k * stride_of(n) < n,
{
    let d = stride_of(n);
    let c = sample_count(n);
    vstd::arithmetic::div_mod::lemma_fundamental_div_mod(n + d - 1, d);
    assert(d * c == c * d) by (nonlinear_arith);
    assert(c >= 0) by {
        vstd::arithmetic::div_mod::lemma_div_pos_is_pos(n + d - 1, d);
    }
    if k < c {
        assert(k * d + d <= c * d) by (nonlinear_arith)
            requires
                k + 1 <= c,
                d >= 1,
        ;
    } else {
        assert(c * d <= k * d) by (nonlinear_arith)
            requires
                c <= k,
                d >= 1,
        ;
    }
}

/// The estimated number of codes that hit the set of each anchor, and of how
/// many: their ratio is the anchor's hit rate.
pub fn anchor_hit_rates(sets: &Vec<Vec<u64>>, source: &ScoreSource<'_>, ntokens: usize) -> (r: (
    Vec<u128>,
    u128,
))
    requires
        source.fits(ntokens as nat),
        ntokens <= MAX_TOKENS,
        forall|i: int|
            0 <= i < sets@.len() ==> (#[trigger] sets@[i])@.len() == words_for(ntokens as int),
    ensures
        r.0@.len() == sets@.len(),
        forall|i: int| 0 <= i < sets@.len() ==> #[trigger] r.0@[i] == source.hits(
            marked_by(sets@[i]@),
        ),
        forall|i: int| 0 <= i < sets@.len() ==> #[trigger] r.0@[i] <= 0x1_0000_0000_0000_0000_0000,
        r.1 == source.total(),
{
    let mut hits: Vec<u128> = Vec::new();
    match source {
        ScoreSource::SampledCodes(codes) => {
            let n: usize = codes.len();
            let per: usize = n / FREQ_SAMPLES;
            let stride: usize = if per > 1 {
                per
            } else {
                1
            };
            let mut i: usize = 0;
            while i < sets.len()
                invariant
                    i <= sets@.len(),
                    n == codes@.len(),
                    stride == stride_of(n as int),
                    codes_ok(codes@, ntokens as nat),
                    forall|k: int|
                        0 <= k < sets@.len() ==> (#[trigger] sets@[k])@.len() == words_for(
                            ntokens as int,
                        ),
                    hits@.len() == i,
                    forall|k: int|
                        0 <= k < i ==> #[trigger] hits@[k] == sampled_hits(
                            marked_by(sets@[k]@),
                            codes@,
                            sample_count(n as int) as nat,
                        ) && hits@[k] <= u64::MAX,
                decreases sets@.len() - i,
            {
                let set: &Vec<u64> = &sets[i];
                let mut hit: u128 = 0;
                let mut taken: usize = 0;
                let mut at: usize = 0;
                while at < n
                    invariant
                        n == codes@.len(),
                        stride == stride_of(n as int),
                        codes_ok(codes@, ntokens as nat),
                        set@.len() == words_for(ntokens as int),
                        at >= n ==> taken == sample_count(n as int),
                        at < n ==> at == taken * stride,
                        taken <= at,
                        at <= n,
                        hit <= taken,
                        hit == sampled_hits(marked_by(set@), codes@, taken as nat),
                    decreases n - at,
                {
                    proof {
                        assert(codes@[at as int] < ntokens);
                        assert((taken + 1) * stride == taken * stride + stride) by (nonlinear_arith);
                        lemma_samples(n as int, taken as int);
                        lemma_samples(n as int, taken as int + 1);
                    }
                    if get_bit(set.as_slice(), codes[at] as usize) {
                        hit = hit + 1;
                    }
                    taken = taken + 1;
                    if stride < n - at {
                        at = at + stride;
                    } else {
                        at = n;
                    }
                }
                proof {
                    if n == 0 {
                        lemma_samples(0, 0);
                    }
                }
                hits.push(hit);
                i = i + 1;
            }
            proof {
                lemma_samples(n as int, 0);
                lemma_samples(n as int, n as int);
                assert(n <= n * stride) by (nonlinear_arith)
                    requires
                        stride >= 1,
                        n >= 0,
                ;
            }
            let count: usize = if n == 0 {
                0
            } else {
                (n - 1) / stride + 1
            };
            proof {
                if n > 0 {
                    assert(n + stride - 1 == (n - 1) + stride);
                    vstd::arithmetic::div_mod::lemma_div_plus_one(n as int - 1, stride as int);
                }
            }
            (hits, if count > 1 {
                count as u128
            } else {
                1
            })
        },
        ScoreSource::Stats(stats) => {
            let t: u128 = stats.approx_total();
            let mut i: usize = 0;
            while i < sets.len()
                invariant
                    i <= sets@.len(),
                    stats.wf(),
                    stats.magnitudes().len() == ntokens,
                    ntokens <= MAX_TOKENS,
                    forall|k: int|
                        0 <= k < sets@.len() ==> (#[trigger] sets@[k])@.len() == words_for(
                            ntokens as int,
                        ),
                    hits@.len() == i,
                    forall|k: int|
                        0 <= k < i ==> #[trigger] hits@[k] == weighted_hits(
                            marked_by(sets@[k]@),
                            stats.magnitudes(),
                            ntokens as nat,
                        ) && hits@[k] <= 0x1_0000_0000_0000_0000_0000,
                decreases sets@.len() - i,
            {
                let set: &Vec<u64> = &sets[i];
                let mut hit: u128 = 0;
                let mut c: usize = 0;
                while c < ntokens
                    invariant
                        c <= ntokens,
                        stats.wf(),
                        stats.magnitudes().len() == ntokens,
                        ntokens <= MAX_TOKENS,
                        set@.len() == words_for(ntokens as int),
                        hit == weighted_hits(marked_by(set@), stats.magnitudes(), c as nat),
                        hit <= c * 0x8000_0000_0000_0000,
                    decreases ntokens - c,
                {
                    if get_bit(set.as_slice(), c) {
                        hit = hit + stats.approx_count(c) as u128;
                    }
                    c = c + 1;
                }
                hits.push(hit);
                i = i + 1;
            }
            (hits, if t > 1 {
                t
            } else {
                1
            })
        },
    }
}

/// Sets that agree on the dictionary's codes are hit as often.
proof fn lemma_same_hits(
    source: &ScoreSource<'_>,
    a: spec_fn(int) -> bool,
    b: spec_fn(int) -> bool,
    ntokens: nat,
)
    requires
        source.fits(ntokens),
        forall|c: int| 0 <= c < ntokens ==> #[trigger] a(c) == b(c),
    ensures
        source.hits(a) == source.hits(b),
{
    match source {
        ScoreSource::SampledCodes(codes) => {
            lemma_samples(codes@.len() as int, 0);
            lemma_same_sampled(a, b, codes@, sample_count(codes@.len() as int) as nat, ntokens);
        },
        ScoreSource::Stats(stats) => {
            lemma_same_weighted(a, b, stats.magnitudes(), ntokens);
        },
    }
}

proof fn lemma_same_sampled(
    a: spec_fn(int) -> bool,
    b: spec_fn(int) -> bool,
    codes: Seq<Token>,
    k: nat,
    ntokens: nat,
)
    requires
        codes_ok(codes, ntokens),
        k <= sample_count(codes.len() as int),
        forall|c: int| 0 <= c < ntokens ==> #[trigger] a(c) == b(c),
    ensures
        sampled_hits(a, codes, k) == sampled_hits(b, codes, k),
    decreases k,
{
    if k > 0 {
        lemma_same_sampled(a, b, codes, (k - 1) as nat, ntokens);
        lemma_samples(codes.len() as int, k - 1);
        let d = stride_of(codes.len() as int);
        let at = (k - 1) * d;
        assert(at >= 0) by (nonlinear_arith)
            requires
                at == (k - 1) * d,
                k >= 1,
                d >= 1,
        ;
        assert(codes[at] < ntokens);
        assert(a(codes[at] as int) == b(codes[at] as int));
    }
}

proof fn lemma_same_weighted(
    a: spec_fn(int) -> bool,
    b: spec_fn(int) -> bool,
    magnitudes: Seq<u8>,
    k: nat,
)
    requires
        forall|c: int| 0 <= c < k ==> #[trigger] a(c) == b(c),
    ensures
        weighted_hits(a, magnitudes, k) == weighted_hits(b, magnitudes, k),
    decreases k,
{
    if k > 0 {
        lemma_same_weighted(a, b, magnitudes, (k - 1) as nat);
        assert(a(k - 1) == b(k - 1));
    }
}

/// The estimated number of codes that can cover anchor `i`.
pub open spec fn anchor_hits(
    pattern: Seq<u8>,
    tokens: Seq<Seq<u8>>,
    source: &ScoreSource<'_>,
    i: int,
) -> nat {
    source.hits(anchor_set(pattern, tokens, i))
}

/// Anchor `a` fires no more often than anchor `b`, and where they fire equally
/// often no more tokens can cover it.
pub open spec fn no_worse(
    pattern: Seq<u8>,
    tokens: Seq<Seq<u8>>,
    source: &ScoreSource<'_>,
    a: int,
    b: int,
) -> bool {
    let x = anchor_hits(pattern, tokens, source, a);
    let y = anchor_hits(pattern, tokens, source, b);
    x < y || (x == y && members(anchor_set(pattern, tokens, a), tokens.len()) <= members(
        anchor_set(pattern, tokens, b),
        tokens.len(),
    ))
}

/// The first of the anchors that fire least often, the one that the fewest
/// tokens can cover where several do.
pub open spec fn is_best(
    pattern: Seq<u8>,
    tokens: Seq<Seq<u8>>,
    source: &ScoreSource<'_>,
    best: int,
) -> bool {
    &&& 0 <= best < pattern.len()
    &&& forall|k: int|
        0 <= k < pattern.len() ==> #[trigger] no_worse(pattern, tokens, source, best, k)
    &&& forall|k: int| 0 <= k < best ==> !#[trigger] no_worse(pattern, tokens, source, k, best)
}

/// `pf` is the prefilter of anchor `best`, if that is selective enough: if it
/// fires on no more than a quarter of the codes.
pub open spec fn is_prefilter_at(
    pf: Option<Prefilter>,
    pattern: Seq<u8>,
    tokens: Seq<Seq<u8>>,
    source: &ScoreSource<'_>,
    best: int,
) -> bool {
    let hits = anchor_hits(pattern, tokens, source, best);
    match pf {
        None => 4 * hits > source.total(),
        Some(f) => {
            &&& 4 * hits <= source.total()
            &&& f.wf(pattern, tokens)
            &&& f.anchor() == best
            &&& f.rate() == (hits as u128, source.total() as u128)
            &&& hits <= u128::MAX
            &&& source.total() <= u128::MAX
            &&& f.by_intervals() <==> runs(anchor_set(pattern, tokens, best), tokens.len())
                <= MAX_SCAN_INTERVALS
        },
    }
}

/// `pf` is what scoring the anchors by `source` comes to: the prefilter of the
/// best anchor, or none where there is no anchor or no token, or where the
/// best anchor is not selective enough.
pub open spec fn is_prefilter_of(
    pf: Option<Prefilter>,
    pattern: Seq<u8>,
    tokens: Seq<Seq<u8>>,
    source: &ScoreSource<'_>,
) -> bool {
    if pattern.len() == 0 || tokens.len() == 0 {
        pf is None
    } else {
        exists|best: int| #[trigger]
            is_best(pattern, tokens, source, best) && is_prefilter_at(
                pf,
                pattern,
                tokens,
                source,
                best,
            )
    }
}

/// Compiled prefilter for one pattern over one dictionary.
pub struct Prefilter {
    filter: Filter,
    hits: u128,
    total: u128,
    anchor: Ghost<int>,
}

impl Prefilter {
    /// The prefilter is that of an anchor of the pattern.
    pub closed spec fn wf(&self, pattern: Seq<u8>, tokens: Seq<Seq<u8>>) -> bool {
        &&& self.filter.wf()
        &&& 0 <= self.anchor@ < pattern.len()
        &&& self.total > 0
        &&& forall|c: int|
            0 <= c < tokens.len() ==> #[trigger] self.filter.admits(c) == covers_anchor(
                tokens[c],
                pattern,
                self.anchor@,
            )
    }

    /// The code `c` is a candidate.
    pub closed spec fn admits(&self, c: int) -> bool {
        self.filter.admits(c)
    }

    /// The anchor that the candidates are drawn from.
    pub closed spec fn anchor(&self) -> int {
        self.anchor@
    }

    /// The hit rate of the candidates, as a ratio.
    pub closed spec fn rate(&self) -> (u128, u128) {
        (self.hits, self.total)
    }

    /// Membership is tested by range checks.
    pub closed spec fn by_intervals(&self) -> bool {
        self.filter.by_intervals()
    }

    /// The candidates are the codes that can cover the anchor.
    pub proof fn lemma_admits(&self, pattern: Seq<u8>, tokens: Seq<Seq<u8>>, c: int)
        requires
            self.wf(pattern, tokens),
            0 <= c < tokens.len(),
        ensures
            0 <= self.anchor() < pattern.len(),
            self.admits(c) == covers_anchor(tokens[c], pattern, self.anchor()),
    {
    }

    /// The anchor is a position of the pattern.
    pub proof fn lemma_anchor_exists(&self, pattern: Seq<u8>, tokens: Seq<Seq<u8>>)
        requires
            self.wf(pattern, tokens),
        ensures
            0 <= self.anchor() < pattern.len(),
    {
    }

    /// Builds the prefilter for `pattern`, choosing the rarest anchor by the
    /// estimates of `source`. `None` where the pattern or the dictionary is
    /// empty, and where no anchor is selective enough to pay for the pass:
    /// where even the rarest fires on more than a quarter of the codes.
    pub fn build(pattern: &[u8], dict_bytes: &[u8], dict_offsets: &[u32], source: &ScoreSource<'_>) -> (r: Option<
        Prefilter,
    >)
        requires
            dict_ok(dict_bytes@, dict_offsets@),
            source.fits(tokens_of(dict_bytes@, dict_offsets@).len()),
        ensures
            is_prefilter_of(r, pattern@, tokens_of(dict_bytes@, dict_offsets@), source),
    {
        let n: usize = token_count(dict_offsets);
        let ghost toks = tokens_of(dict_bytes@, dict_offsets@);
        if pattern.len() == 0 || n == 0 {
            return None;
        }
        let sets = anchor_candidates(pattern, dict_bytes, dict_offsets);
        let (hits, total) = anchor_hit_rates(&sets, source, n);
        let ghost p = pattern@;
        proof {
            assert forall|i: int| 0 <= i < p.len() implies #[trigger] hits@[i] == anchor_hits(
                p,
                toks,
                source,
                i,
            ) && set_bits(sets@[i]@, sets@[i]@.len()) == members(
                anchor_set(p, toks, i),
                toks.len(),
            ) && runs(marked_by(sets@[i]@), toks.len()) == runs(
                anchor_set(p, toks, i),
                toks.len(),
            ) by {
                lemma_anchor_marks(p, toks, source, sets@, i);
            }
        }
        let mut best: usize = 0;
        let mut best_size: usize = count_set_bits(&sets[0]);
        let mut k: usize = 1;
        proof {
            lemma_set_bits_bound(sets@[0]@, sets@[0]@.len());
        }
        while k < hits.len()
            invariant
                sets@.len() == hits@.len(),
                hits@.len() == p.len(),
                1 <= k <= hits@.len(),
                best < k,
                n <= MAX_TOKENS,
                forall|i: int|
                    0 <= i < sets@.len() ==> (#[trigger] sets@[i])@.len() == words_for(n as int),
                forall|i: int|
                    0 <= i < p.len() ==> #[trigger] hits@[i] == anchor_hits(p, toks, source, i)
                        && set_bits(sets@[i]@, sets@[i]@.len()) == members(
                        anchor_set(p, toks, i),
                        toks.len(),
                    ),
                best_size == set_bits(sets@[best as int]@, sets@[best as int]@.len()),
                forall|i: int|
                    0 <= i < k ==> #[trigger] no_worse(p, toks, source, best as int, i),
                forall|i: int|
                    0 <= i < best ==> !#[trigger] no_worse(p, toks, source, i, best as int),
            decreases hits@.len() - k,
        {
            let size: usize = count_set_bits(&sets[k]);
            proof {
                lemma_set_bits_bound(sets@[k as int]@, sets@[k as int]@.len());
                assert(hits@[k as int] == anchor_hits(p, toks, source, k as int));
                assert(hits@[best as int] == anchor_hits(p, toks, source, best as int));
            }
            if hits[k] < hits[best] || (hits[k] == hits[best] && size < best_size) {
                proof {
                    assert forall|i: int| 0 <= i < k + 1 implies #[trigger] no_worse(
                        p,
                        toks,
                        source,
                        k as int,
                        i,
                    ) by {
                        if i < k {
                            assert(no_worse(p, toks, source, best as int, i));
                        }
                    }
                    assert forall|i: int| 0 <= i < k implies !#[trigger] no_worse(
                        p,
                        toks,
                        source,
                        i,
                        k as int,
                    ) by {
                        assert(no_worse(p, toks, source, best as int, i));
                    }
                }
                best = k;
                best_size = size;
            }
            k = k + 1;
        }
        proof {
            assert(is_best(p, toks, source, best as int));
            assert(hits@[best as int] == anchor_hits(p, toks, source, best as int));
        }
        if 4 * hits[best] > total {
            return None;
        }
        let set: &Vec<u64> = &sets[best];
        let filter = Filter::from_bitmap(set.as_slice(), n);
        proof {
            assert forall|c: int| 0 <= c < toks.len() implies #[trigger] filter.admits(c)
                == covers_anchor(toks[c], p, best as int) by {
                assert(mask_bit(sets@[best as int]@, c) == (c < toks.len() && covers_anchor(
                    toks[c],
                    p,
                    best as int,
                )));
            }
        }
        Some(Prefilter { filter, hits: hits[best], total, anchor: Ghost(best as int) })
    }

    /// The expected fraction of codes that are candidates, as a ratio of two
    /// counts.
    pub fn expected_hit_rate(&self) -> (r: (u128, u128))
        ensures
            r == self.rate(),
    {
        (self.hits, self.total)
    }

    /// How the scan tests membership, for diagnostics.
    pub fn strategy(&self) -> (r: &'static str)
        ensures
            r@ == (if self.by_intervals() {
                "simd-intervals"@
            } else {
                "bitmap"@
            }),
    {
        self.filter.strategy()
    }

    /// The mask of the candidates among `codes`: bit `i` is set exactly when
    /// `codes[i]` is one.
    pub fn candidate_mask(&self, codes: &[Token], Ghost(pattern): Ghost<Seq<u8>>, Ghost(tokens): Ghost<Seq<Seq<u8>>>) -> (mask: Vec<u64>)
        requires
            self.wf(pattern, tokens),
        ensures
            mask@.len() == words_for(codes@.len() as int),
            forall|i: int|
                0 <= i < codes@.len() ==> #[trigger] mask_bit(mask@, i) == self.admits(
                    codes@[i] as int,
                ),
    {
        let n: usize = codes.len();
        let words: usize = n / 64 + (if n % 64 == 0 {
            0usize
        } else {
            1usize
        });
        let mut mask: Vec<u64> = vec![0u64; words];
        self.filter.candidate_mask(codes, &mut mask);
        mask
    }
}

/// What the mask of an anchor's set says is so of the set.
proof fn lemma_anchor_marks(
    pattern: Seq<u8>,
    tokens: Seq<Seq<u8>>,
    source: &ScoreSource<'_>,
    sets: Seq<Vec<u64>>,
    i: int,
)
    requires
        source.fits(tokens.len()),
        are_anchor_sets(sets, pattern, tokens, words_for(tokens.len() as int)),
        0 <= i < pattern.len(),
    ensures
        source.hits(marked_by(sets[i]@)) == anchor_hits(pattern, tokens, source, i),
        set_bits(sets[i]@, sets[i]@.len()) == members(
            anchor_set(pattern, tokens, i),
            tokens.len(),
        ),
        runs(marked_by(sets[i]@), tokens.len()) == runs(
            anchor_set(pattern, tokens, i),
            tokens.len(),
        ),
{
    let a = marked_by(sets[i]@);
    let b = anchor_set(pattern, tokens, i);
    let all = 64 * sets[i]@.len();
    assert forall|c: int| 0 <= c < all implies #[trigger] a(c) == b(c) by {
        assert(mask_bit(sets[i]@, c) == (c < tokens.len() && covers_anchor(
            tokens[c],
            pattern,
            i,
        )));
    }
    lemma_same_hits(source, a, b, tokens.len());
    lemma_same_set(a, b, tokens.len());
    lemma_set_bits_are_members(sets[i]@, sets[i]@.len());
    lemma_no_more_members(a, tokens.len(), all);
}

/// A word has at most 64 set bits, and a mask that many times its words.
proof fn lemma_set_bits_bound(mask: Seq<u64>, k: nat)
    requires
        k <= mask.len(),
    ensures
        set_bits(mask, k) <= 64 * k,
    decreases k,
{
    if k > 0 {
        lemma_set_bits_bound(mask, (k - 1) as nat);
        crate::query::filter::lemma_ones_bound(mask[k - 1], 64);
    }
}

/// Where a token that can cover an anchor is placed: it covers the anchor, and
/// agrees with the pattern on every byte that they share.
pub proof fn anchor_placement(pattern: Seq<u8>, tokens: Seq<Seq<u8>>, i: int, c: int) -> (s: int)
    requires
        anchor_set(pattern, tokens, i)(c),
    ensures
        0 <= c < tokens.len(),
        s <= i < s + tokens[c].len(),
        forall|j: int|
            0 <= j < pattern.len() && s <= j < s + tokens[c].len() ==> tokens[c][j - s]
                == #[trigger] pattern[j],
{
    choose|s: int| s <= i < s + tokens[c].len() && #[trigger] agrees(tokens[c], pattern, s)
}

/// A token with such a placement can cover the anchor.
pub proof fn lemma_placement_covers(
    pattern: Seq<u8>,
    tokens: Seq<Seq<u8>>,
    i: int,
    c: int,
    s: int,
)
    requires
        0 <= c < tokens.len(),
        s <= i < s + tokens[c].len(),
        forall|j: int|
            0 <= j < pattern.len() && s <= j < s + tokens[c].len() ==> tokens[c][j - s]
                == #[trigger] pattern[j],
    ensures
        anchor_set(pattern, tokens, i)(c),
{
    assert(agrees(tokens[c], pattern, s));
}

/// The samples of a stream are every `d`-th code from the first on, where `d`
/// is the largest step that takes at least 65536 of them, or 1: their number,
/// at least 1, is the total, and those in a set are its hits.
pub proof fn lemma_samples_are_strided(codes: &[Token], set: spec_fn(int) -> bool, d: int, k: int)
    requires
        d >= 1,
        d == 1 || d * 65536 <= codes@.len(),
        (d + 1) * 65536 > codes@.len(),
        k >= 0,
        codes@.len() <= k * d,
        k == 0 || (k - 1) * d < codes@.len(),
    ensures
        ScoreSource::SampledCodes(codes).total() == (if k < 1 {
            1
        } else {
            k
        }),
        ScoreSource::SampledCodes(codes).hits(set) == set_int_range(0, k).filter(
            |j: int| set(codes@[j * d] as int),
        ).len(),
{
    let n = codes@.len() as int;
    let per = n / 65536;
    assert(stride_of(n) == d) by {
        if d > 1 {
            assert(per == d) by {
                vstd::arithmetic::div_mod::lemma_fundamental_div_mod_converse(
                    n,
                    65536,
                    d,
                    n - d * 65536,
                );
            }
        } else {
            assert(per <= 1) by {
                vstd::arithmetic::div_mod::lemma_fundamental_div_mod(n, 65536);
            }
        }
    }
    lemma_samples(n, k);
    if k > 0 {
        lemma_samples(n, k - 1);
    }
    assert(sample_count(n) == k);
    lemma_sampled_counted(set, codes@, d, k as nat);
}

proof fn lemma_sampled_counted(set: spec_fn(int) -> bool, codes: Seq<Token>, d: int, k: nat)
    requires
        d == stride_of(codes.len() as int),
    ensures
        sampled_hits(set, codes, k) == set_int_range(0, k as int).filter(
            |j: int| set(codes[j * d] as int),
        ).len(),
    decreases k,
{
    let f = |j: int| set(codes[j * d] as int);
    if k == 0 {
        lemma_count_none(f);
    } else {
        lemma_sampled_counted(set, codes, d, (k - 1) as nat);
        lemma_count_next(k - 1, f);
    }
}

/// Short of twice 65536 codes, all of them are samples.
pub proof fn lemma_short_streams_are_sampled_whole(codes: &[Token], set: spec_fn(int) -> bool)
    requires
        codes@.len() < 131072,
    ensures
        ScoreSource::SampledCodes(codes).total() == (if codes@.len() == 0 {
            1
        } else {
            codes@.len()
        }),
        ScoreSource::SampledCodes(codes).hits(set) == set_int_range(0, codes@.len() as int).filter(
            |i: int| set(codes@[i] as int),
        ).len(),
{
    let n = codes@.len() as int;
    lemma_samples_are_strided(codes, set, 1, n);
    let f = |j: int| set(codes@[j * 1] as int);
    let g = |i: int| set(codes@[i] as int);
    lemma_count_same(n, f, g);
    assert(set_int_range(0, n).filter(|j: int| set(codes@[j * 1] as int)) =~= set_int_range(
        0,
        n,
    ).filter(|i: int| set(codes@[i] as int)));
}

/// However long the stream, at least 65536 samples are drawn, or all codes.
pub proof fn lemma_enough_samples(codes: &[Token])
    ensures
        ScoreSource::SampledCodes(codes).total() >= 65536
            || ScoreSource::SampledCodes(codes).total() >= codes@.len(),
{
    let n = codes@.len() as int;
    let d = stride_of(n);
    lemma_samples(n, 0);
    if d > 1 {
        lemma_samples(n, 65535);
        vstd::arithmetic::div_mod::lemma_fundamental_div_mod(n, 65536);
        assert(65535 * d < n) by {
            assert(d * 65536 <= n);
        }
    } else {
        if n > 0 {
            lemma_samples(n, n - 1);
            assert(sample_count(n) >= n);
        }
    }
}

/// By stored statistics, the hits of a set are the approximate counts of its
/// tokens: none for a set without tokens, and one token more adds its count.
/// The total is what the set of all tokens hits, at least 1.
pub proof fn lemma_stats_hits_add_up(
    stats: &CodeStats,
    a: spec_fn(int) -> bool,
    b: spec_fn(int) -> bool,
    c: int,
)
    requires
        0 <= c < stats.magnitudes().len(),
        !a(c),
        b(c),
        forall|t: int| 0 <= t < stats.magnitudes().len() && t != c ==> #[trigger] a(t) == b(t),
    ensures
        ScoreSource::Stats(stats).hits(|t: int| false) == 0,
        ScoreSource::Stats(stats).hits(b) == ScoreSource::Stats(stats).hits(a) + approx(
            stats.magnitudes()[c] as nat,
        ),
        ScoreSource::Stats(stats).total() == (if ScoreSource::Stats(stats).hits(|t: int| true) < 1 {
            1
        } else {
            ScoreSource::Stats(stats).hits(|t: int| true)
        }),
{
    let q = stats.magnitudes();
    lemma_weighted_adds(q, a, b, c, q.len());
    lemma_weighted_ends(q, q.len());
}

proof fn lemma_weighted_adds(
    q: Seq<u8>,
    a: spec_fn(int) -> bool,
    b: spec_fn(int) -> bool,
    c: int,
    k: nat,
)
    requires
        !a(c),
        b(c),
        0 <= c,
        forall|t: int| 0 <= t < k && t != c ==> #[trigger] a(t) == b(t),
    ensures
        weighted_hits(b, q, k) == weighted_hits(a, q, k) + (if c < k {
            approx(q[c] as nat) as int
        } else {
            0
        }),
    decreases k,
{
    if k > 0 {
        lemma_weighted_adds(q, a, b, c, (k - 1) as nat);
        if k - 1 != c {
            assert(a(k - 1) == b(k - 1));
        }
    }
}

proof fn lemma_weighted_ends(q: Seq<u8>, k: nat)
    ensures
        weighted_hits(|t: int| false, q, k) == 0,
        weighted_hits(|t: int| true, q, k) == crate::query::stats::approx_sum(q, k),
    decreases k,
{
    if k > 0 {
        lemma_weighted_ends(q, (k - 1) as nat);
    }
}

/// A prefilter that is built is that of an anchor that fires on the fewest
/// samples of all and on at most a quarter of them; of several such, of one
/// that the fewest tokens can cover, and of those the first. It admits the
/// tokens that can cover its anchor, reports that anchor's rate, and tests by
/// intervals just when these tokens form at most 16 runs.
pub proof fn lemma_prefilter_is_rarest(
    f: &Prefilter,
    pattern: Seq<u8>,
    tokens: Seq<Seq<u8>>,
    source: &ScoreSource<'_>,
    i: int,
)
    requires
        is_prefilter_of(Some(*f), pattern, tokens, source),
        0 <= i < pattern.len(),
    ensures
        0 <= f.anchor() < pattern.len(),
        forall|c: int|
            0 <= c < tokens.len() ==> #[trigger] f.admits(c) == anchor_set(
                pattern,
                tokens,
                f.anchor(),
            )(c),
        f.rate().0 == source.hits(anchor_set(pattern, tokens, f.anchor())),
        f.rate().1 == source.total(),
        4 * f.rate().0 <= f.rate().1,
        f.rate().0 <= source.hits(anchor_set(pattern, tokens, i)),
        f.rate().0 == source.hits(anchor_set(pattern, tokens, i)) ==> {
            let fewest = set_int_range(0, tokens.len() as int).filter(
                anchor_set(pattern, tokens, f.anchor()),
            ).len();
            let other = set_int_range(0, tokens.len() as int).filter(
                anchor_set(pattern, tokens, i),
            ).len();
            fewest < other || (fewest == other && f.anchor() <= i)
        },
        f.by_intervals() <==> set_int_range(0, tokens.len() as int).filter(
            |c: int|
                anchor_set(pattern, tokens, f.anchor())(c) && (c == 0 || !anchor_set(
                    pattern,
                    tokens,
                    f.anchor(),
                )(c - 1)),
        ).len() <= 16,
{
    let a = f.anchor();
    let best = choose|best: int| #[trigger]
        is_best(pattern, tokens, source, best) && is_prefilter_at(
            Some(*f),
            pattern,
            tokens,
            source,
            best,
        );
    assert(best == a);
    assert(no_worse(pattern, tokens, source, a, i));
    if i < a {
        assert(!no_worse(pattern, tokens, source, i, a));
    }
    let n = tokens.len();
    lemma_members_and_runs_counted(anchor_set(pattern, tokens, a), n);
    lemma_members_and_runs_counted(anchor_set(pattern, tokens, i), n);
    assert forall|c: int| 0 <= c < n implies #[trigger] f.admits(c) == anchor_set(
        pattern,
        tokens,
        a,
    )(c) by {
        f.lemma_admits(pattern, tokens, c);
    }
    let set = anchor_set(pattern, tokens, a);
    assert(set_int_range(0, n as int).filter(|c: int| set(c) && (c == 0 || !set(c - 1)))
        =~= set_int_range(0, n as int).filter(
        |c: int|
            anchor_set(pattern, tokens, f.anchor())(c) && (c == 0 || !anchor_set(
                pattern,
                tokens,
                f.anchor(),
            )(c - 1)),
    ));
}

/// No prefilter is built just where there is no anchor or no token, or where
/// every anchor fires on more than a quarter of the samples.
pub proof fn lemma_no_prefilter_means_none_pays(
    f: Option<Prefilter>,
    pattern: Seq<u8>,
    tokens: Seq<Seq<u8>>,
    source: &ScoreSource<'_>,
)
    requires
        is_prefilter_of(f, pattern, tokens, source),
    ensures
        f is None <==> pattern.len() == 0 || tokens.len() == 0 || forall|i: int|
            0 <= i < pattern.len() ==> 4 * #[trigger] source.hits(anchor_set(pattern, tokens, i))
                > source.total(),
{
    if pattern.len() > 0 && tokens.len() > 0 {
        let best = choose|best: int| #[trigger]
            is_best(pattern, tokens, source, best) && is_prefilter_at(
                f,
                pattern,
                tokens,
                source,
                best,
            );
        assert forall|i: int| 0 <= i < pattern.len() implies source.hits(
            anchor_set(pattern, tokens, best),
        ) <= #[trigger] source.hits(anchor_set(pattern, tokens, i)) by {
            assert(no_worse(pattern, tokens, source, best, i));
        }
        assert(source.hits(anchor_set(pattern, tokens, best)) == anchor_hits(
            pattern,
            tokens,
            source,
            best,
        ));
    }
}

/// The anchor masks mark, for each byte of the pattern, the tokens that can
/// cover it, and no bit past them.
pub proof fn lemma_anchor_masks_mean(
    sets: Seq<Vec<u64>>,
    pattern: Seq<u8>,
    tokens: Seq<Seq<u8>>,
    i: int,
    c: int,
)
    requires
        are_anchor_sets(sets, pattern, tokens, words_for(tokens.len() as int)),
        0 <= i < pattern.len(),
        0 <= c < 64 * sets[i]@.len(),
    ensures
        sets.len() == pattern.len(),
        64 * sets[i]@.len() >= tokens.len(),
        (sets[i]@[c / 64] >> ((c % 64) as u64)) & 1 == 1 <==> anchor_set(pattern, tokens, i)(c),
{
    assert(mask_bit(sets[i]@, c) == (c < tokens.len() && covers_anchor(tokens[c], pattern, i)));
}

} // verus!
