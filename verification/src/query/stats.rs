//! Compact per-code frequency summary.
//!
//! One byte per dictionary token, captured when a column is built and stored
//! alongside it. Counts are quantized to their binary magnitude, an
//! approximation within a factor of two: plenty for choosing between candidate
//! sets whose hit rates differ by orders of magnitude, a choice that affects
//! speed and never correctness.

use crate::dictionary::codes_ok;
use crate::types::Token;
use vstd::arithmetic::power2::pow2;
use crate::count::{lemma_count_next, lemma_count_none};
use vstd::prelude::*;
use vstd::set_lib::set_int_range;

verus! {

/// 0 for 0, else one more than the binary logarithm of `n`, rounded down.
pub open spec fn magnitude(n: nat) -> nat
    decreases n,
{
    if n == 0 {
        0
    } else {
        1 + magnitude(n / 2)
    }
}

/// What a magnitude stands for: 0, or the largest power of two of that
/// magnitude.
pub open spec fn approx(q: nat) -> nat {
    if q == 0 {
        0
    } else {
        pow2((q - 1) as nat)
    }
}

/// The number of times that `c` occurs among the first `k` codes.
pub open spec fn occurrences(codes: Seq<Token>, c: int, k: nat) -> nat
    decreases k,
{
    if k == 0 {
        0
    } else {
        occurrences(codes, c, (k - 1) as nat) + (if codes[k - 1] == c {
            1nat
        } else {
            0nat
        })
    }
}

/// The sum of the approximations of the first `k` magnitudes.
pub open spec fn approx_sum(magnitudes: Seq<u8>, k: nat) -> nat
    decreases k,
{
    if k == 0 {
        0
    } else {
        approx_sum(magnitudes, (k - 1) as nat) + approx(magnitudes[k - 1] as nat)
    }
}

/// The approximation of a count is within a factor of two of it.
pub proof fn lemma_quantization_within_2x(n: nat)
    ensures
        n == 0 ==> approx(magnitude(n)) == 0,
        n > 0 ==> approx(magnitude(n)) <= n < 2 * approx(magnitude(n)),
    decreases n,
{
    if n > 0 {
        lemma_quantization_within_2x(n / 2);
        let q = magnitude(n / 2);
        if q == 0 {
            assert(n / 2 == 0) by {
                if n / 2 > 0 {
                    assert(magnitude(n / 2) >= 1);
                }
            }
            vstd::arithmetic::power2::lemma2_to64();
        } else {
            vstd::arithmetic::power2::lemma_pow2_unfold(q);
        }
    }
}

/// A 64-bit count has a magnitude of at most 64.
proof fn lemma_magnitude_bound(n: nat, k: nat)
    requires
        n < pow2(k),
    ensures
        magnitude(n) <= k,
    decreases n,
{
    if n > 0 {
        if k == 0 {
            vstd::arithmetic::power2::lemma2_to64();
        } else {
            vstd::arithmetic::power2::lemma_pow2_unfold(k);
            lemma_magnitude_bound(n / 2, (k - 1) as nat);
        }
    }
}

proof fn lemma_approx_bound(q: nat)
    requires
        q <= 64,
    ensures
        approx(q) <= 0x8000_0000_0000_0000,
        q > 0 ==> approx(q) == (1u64 << ((q - 1) as u64)),
{
    vstd::arithmetic::power2::lemma2_to64();
    vstd::arithmetic::power2::lemma2_to64_rest();
    if q > 0 {
        if q < 64 {
            vstd::arithmetic::power2::lemma_pow2_strictly_increases((q - 1) as nat, 63);
        }
        vstd::bits::lemma_u64_shl_is_mul(1, (q - 1) as u64);
    }
}

/// Per-token frequency magnitudes of one code stream: 0 where a code never
/// occurs, else `1 + floor(log2(count))`.
pub struct CodeStats {
    magnitudes: Vec<u8>,
}

impl CodeStats {
    /// The magnitude of each token.
    pub closed spec fn magnitudes(&self) -> Seq<u8> {
        self.magnitudes@
    }

    /// Every magnitude is that of a 64-bit count.
    pub open spec fn wf(&self) -> bool {
        forall|c: int| 0 <= c < self.magnitudes().len() ==> #[trigger] self.magnitudes()[c] <= 64
    }

    /// Tallies `codes` and quantizes.
    pub fn from_codes(ntokens: usize, codes: &[Token]) -> (r: CodeStats)
        requires
            codes_ok(codes@, ntokens as nat),
        ensures
            r.wf(),
            r.magnitudes().len() == ntokens,
            forall|c: int|
                0 <= c < ntokens ==> #[trigger] r.magnitudes()[c] == magnitude(
                    occurrences(codes@, c, codes@.len()),
                ),
    {
        let mut counts: Vec<u64> = vec![0u64; ntokens];
        let mut i: usize = 0;
        while i < codes.len()
            invariant
                i <= codes@.len(),
                codes_ok(codes@, ntokens as nat),
                counts@.len() == ntokens,
                forall|c: int|
                    0 <= c < ntokens ==> #[trigger] counts@[c] == occurrences(
                        codes@,
                        c,
                        i as nat,
                    ) && counts@[c] <= i,
            decreases codes@.len() - i,
        {
            assert(codes@[i as int] < ntokens);
            let c: usize = codes[i] as usize;
            let n: u64 = counts[c];
            counts.set(c, n + 1);
            i = i + 1;
        }
        Self::from_counts(counts.as_slice())
    }

    /// Quantizes exact per-token counts.
    pub fn from_counts(counts: &[u64]) -> (r: CodeStats)
        ensures
            r.wf(),
            r.magnitudes().len() == counts@.len(),
            forall|c: int|
                0 <= c < counts@.len() ==> #[trigger] r.magnitudes()[c] == magnitude(
                    counts@[c] as nat,
                ),
    {
        let mut magnitudes: Vec<u8> = Vec::new();
        let mut c: usize = 0;
        while c < counts.len()
            invariant
                c <= counts@.len(),
                magnitudes@.len() == c,
                forall|i: int|
                    0 <= i < c ==> #[trigger] magnitudes@[i] == magnitude(counts@[i] as nat)
                        && magnitudes@[i] <= 64,
            decreases counts@.len() - c,
        {
            let mut w: u64 = counts[c];
            let mut q: u8 = 0;
            proof {
                vstd::arithmetic::power2::lemma2_to64();
                lemma_magnitude_bound(w as nat, 64);
            }
            while w > 0
                invariant
                    q + magnitude(w as nat) == magnitude(counts@[c as int] as nat),
                    magnitude(counts@[c as int] as nat) <= 64,
                decreases w,
            {
                w = w / 2;
                q = q + 1;
            }
            magnitudes.push(q);
            c = c + 1;
        }
        CodeStats { magnitudes }
    }

    /// Rebuilds from the bytes of [`as_bytes`](Self::as_bytes).
    pub fn from_bytes(magnitudes: &[u8]) -> (r: CodeStats)
        ensures
            r.magnitudes() == magnitudes@,
    {
        CodeStats { magnitudes: vstd::slice::slice_to_vec(magnitudes) }
    }

    /// The serialized form: one magnitude byte per token.
    pub fn as_bytes(&self) -> (r: &[u8])
        ensures
            r@ == self.magnitudes(),
    {
        self.magnitudes.as_slice()
    }

    /// The number of tokens covered.
    pub fn num_tokens(&self) -> (n: usize)
        ensures
            n == self.magnitudes().len(),
    {
        self.magnitudes.len()
    }

    /// The approximate number of occurrences of `code`, within a factor of two
    /// of the true one.
    pub fn approx_count(&self, code: usize) -> (n: u64)
        requires
            code < self.magnitudes().len(),
            self.magnitudes()[code as int] <= 64,
        ensures
            n == approx(self.magnitudes()[code as int] as nat),
            n <= 0x8000_0000_0000_0000,
    {
        let q: u8 = self.magnitudes[code];
        proof {
            lemma_approx_bound(q as nat);
        }
        if q == 0 {
            0
        } else {
            1u64 << ((q - 1) as u64)
        }
    }

    /// The approximate number of codes, the sum over the tokens.
    pub fn approx_total(&self) -> (n: u128)
        requires
            self.wf(),
        ensures
            n == approx_sum(self.magnitudes(), self.magnitudes().len()),
    {
        let mut n: u128 = 0;
        let mut c: usize = 0;
        while c < self.magnitudes.len()
            invariant
                c <= self.magnitudes().len(),
                self.wf(),
                n == approx_sum(self.magnitudes(), c as nat),
                n <= c * 0x8000_0000_0000_0000,
            decreases self.magnitudes().len() - c,
        {
            n = n + self.approx_count(c) as u128;
            c = c + 1;
        }
        n
    }
}

/// The occurrences of a code are counted one by one.
pub proof fn lemma_occurrences_counted(codes: Seq<Token>, c: int, k: nat)
    ensures
        occurrences(codes, c, k) == set_int_range(0, k as int).filter(|i: int| codes[i] == c).len(),
    decreases k,
{
    let f = |i: int| codes[i] == c;
    if k == 0 {
        lemma_count_none(f);
    } else {
        lemma_occurrences_counted(codes, c, (k - 1) as nat);
        lemma_count_next(k - 1, f);
    }
}

/// A magnitude other than 0 stands for a power of two, the next for its double.
pub proof fn lemma_approx_doubles(q: nat)
    ensures
        approx(0) == 0,
        approx(1) == 1,
        q >= 1 ==> approx(q + 1) == 2 * approx(q),
{
    vstd::arithmetic::power2::lemma2_to64();
    if q >= 1 {
        vstd::arithmetic::power2::lemma_pow2_unfold(q);
    }
}

/// The magnitude of a count is the number of bits that it takes.
pub proof fn lemma_magnitude_counts_bits(n: nat, q: nat)
    ensures
        magnitude(n) == 0 <==> n == 0,
        q >= 1 ==> (magnitude(n) == q <==> pow2((q - 1) as nat) <= n < pow2(q)),
{
    lemma_quantization_within_2x(n);
    let m = magnitude(n);
    if n > 0 {
        vstd::arithmetic::power2::lemma_pow2_unfold(m);
        if q >= 1 {
            if q < m {
                if q < m - 1 {
                    vstd::arithmetic::power2::lemma_pow2_strictly_increases(q, (m - 1) as nat);
                }
            }
            if m < q {
                if m < q - 1 {
                    vstd::arithmetic::power2::lemma_pow2_strictly_increases(m, (q - 1) as nat);
                }
            }
        }
    } else if q >= 1 {
        vstd::arithmetic::power2::lemma_pow2_pos((q - 1) as nat);
    }
}

/// The approximate number of codes is that of all tokens but the last, and
/// that of the last.
pub proof fn lemma_total_adds_up(magnitudes: Seq<u8>, more: u8)
    ensures
        approx_sum(Seq::empty(), 0) == 0,
        approx_sum(magnitudes.push(more), magnitudes.len() + 1) == approx_sum(
            magnitudes,
            magnitudes.len(),
        ) + approx(more as nat),
{
    lemma_approx_sum_prefix(magnitudes.push(more), magnitudes, magnitudes.len());
}

proof fn lemma_approx_sum_prefix(a: Seq<u8>, b: Seq<u8>, k: nat)
    requires
        k <= a.len(),
        k <= b.len(),
        forall|i: int| 0 <= i < k ==> a[i] == b[i],
    ensures
        approx_sum(a, k) == approx_sum(b, k),
    decreases k,
{
    if k > 0 {
        lemma_approx_sum_prefix(a, b, (k - 1) as nat);
    }
}

} // verus!
