//! Bits of machine words and of bit masks.

use vstd::prelude::*;
use vstd::std_specs::bits::{axiom_u64_trailing_zeros, u64_trailing_zeros};

verus! {

/// Bit `j` of a word.
pub open spec fn bit(w: u64, j: int) -> bool {
    (w >> (j as u64)) & 1 == 1
}

/// Bit `i` of a mask whose words hold 64 bits each, lowest first.
pub open spec fn mask_bit(mask: Seq<u64>, i: int) -> bool {
    bit(mask[i / 64], i % 64)
}

/// The number of words that hold `n` bits.
pub open spec fn words_for(n: int) -> int {
    (n + 63) / 64
}

proof fn bv_zero(j: u64)
    by (bit_vector)
    requires
        j < 64,
    ensures
        (0u64 >> j) & 1 == 0,
{
}

proof fn bv_ones(j: u64)
    by (bit_vector)
    requires
        j < 64,
    ensures
        (!0u64 >> j) & 1 == 1,
{
}

proof fn bv_or(a: u64, b: u64, j: u64)
    by (bit_vector)
    requires
        j < 64,
    ensures
        ((a | b) >> j) & 1 == 1 <==> (a >> j) & 1 == 1 || (b >> j) & 1 == 1,
{
}

proof fn bv_and(a: u64, b: u64, j: u64)
    by (bit_vector)
    requires
        j < 64,
    ensures
        ((a & b) >> j) & 1 == 1 <==> (a >> j) & 1 == 1 && (b >> j) & 1 == 1,
{
}

proof fn bv_shl(a: u64, k: u64, j: u64)
    by (bit_vector)
    requires
        j < 64,
        k < 64,
    ensures
        ((a << k) >> j) & 1 == 1 <==> j >= k && (a >> ((j - k) as u64)) & 1 == 1,
{
}

proof fn bv_shr(a: u64, k: u64, j: u64)
    by (bit_vector)
    requires
        j < 64,
        k < 64,
    ensures
        ((a >> k) >> j) & 1 == 1 <==> j + k < 64 && (a >> ((j + k) as u64)) & 1 == 1,
{
}

proof fn bv_one(j: u64)
    by (bit_vector)
    requires
        j < 64,
    ensures
        (1u64 >> j) & 1 == 1 <==> j == 0,
{
}

proof fn bv_low_ones(k: u64, j: u64)
    by (bit_vector)
    requires
        j < 64,
        k < 64,
    ensures
        1u64 << k >= 1,
        (((1u64 << k) - 1) as u64 >> j) & 1 == 1 <==> j < k,
{
}

pub proof fn lemma_zero(j: int)
    requires
        0 <= j < 64,
    ensures
        !bit(0, j),
{
    bv_zero(j as u64);
}

pub proof fn lemma_ones(j: int)
    requires
        0 <= j < 64,
    ensures
        bit(!0u64, j),
{
    bv_ones(j as u64);
}

pub proof fn lemma_or(a: u64, b: u64, j: int)
    requires
        0 <= j < 64,
    ensures
        bit(a | b, j) <==> bit(a, j) || bit(b, j),
{
    bv_or(a, b, j as u64);
}

pub proof fn lemma_and(a: u64, b: u64, j: int)
    requires
        0 <= j < 64,
    ensures
        bit(a & b, j) <==> bit(a, j) && bit(b, j),
{
    bv_and(a, b, j as u64);
}

pub proof fn lemma_shl(a: u64, k: int, j: int)
    requires
        0 <= j < 64,
        0 <= k < 64,
    ensures
        bit(a << (k as u64), j) <==> j >= k && bit(a, j - k),
{
    bv_shl(a, k as u64, j as u64);
}

pub proof fn lemma_shr(a: u64, k: int, j: int)
    requires
        0 <= j < 64,
        0 <= k < 64,
    ensures
        bit(a >> (k as u64), j) <==> j + k < 64 && bit(a, j + k),
{
    bv_shr(a, k as u64, j as u64);
}

/// A single set bit.
pub proof fn lemma_single(k: int, j: int)
    requires
        0 <= j < 64,
        0 <= k < 64,
    ensures
        bit(1u64 << (k as u64), j) <==> j == k,
{
    lemma_shl(1, k, j);
    if j >= k {
        bv_one((j - k) as u64);
    }
}

/// Setting one bit of a word.
pub proof fn lemma_set(w: u64, k: int, j: int)
    requires
        0 <= j < 64,
        0 <= k < 64,
    ensures
        bit(w | (1u64 << (k as u64)), j) <==> j == k || bit(w, j),
{
    lemma_or(w, 1u64 << (k as u64), j);
    lemma_single(k, j);
}

/// The low `k` bits.
pub proof fn lemma_low_ones(k: int, j: int)
    requires
        0 <= j < 64,
        0 <= k < 64,
    ensures
        1u64 << (k as u64) >= 1,
        bit(((1u64 << (k as u64)) - 1) as u64, j) <==> j < k,
{
    bv_low_ones(k as u64, j as u64);
}

/// Every bit from `k` on.
pub proof fn lemma_high_ones(k: int, j: int)
    requires
        0 <= j < 64,
        0 <= k < 64,
    ensures
        bit(!0u64 << (k as u64), j) <==> j >= k,
{
    lemma_shl(!0u64, k, j);
    if j >= k {
        lemma_ones(j - k);
    }
}

/// Every bit but the highest `k`.
pub proof fn lemma_shifted_ones(k: int, j: int)
    requires
        0 <= j < 64,
        0 <= k < 64,
    ensures
        bit(!0u64 >> (k as u64), j) <==> j < 64 - k,
{
    lemma_shr(!0u64, k, j);
    if j + k < 64 {
        lemma_ones(j + k);
    }
}

/// A word is zero exactly when no bit is set; otherwise its trailing zeros end
/// at the lowest set bit.
pub proof fn lemma_lowest(w: u64)
    ensures
        w == 0 ==> forall|j: int| 0 <= j < 64 ==> !#[trigger] bit(w, j),
        w != 0 ==> u64_trailing_zeros(w) < 64 && bit(w, u64_trailing_zeros(w) as int),
        forall|j: int| 0 <= j < u64_trailing_zeros(w) && j < 64 ==> !#[trigger] bit(w, j),
{
    axiom_u64_trailing_zeros(w);
    assert forall|j: int| 0 <= j < u64_trailing_zeros(w) && j < 64 implies !#[trigger] bit(
        w,
        j,
    ) by {
        let k = j as u64;
        assert((w >> k) & 1u64 == 0u64);
    }
}

proof fn bv_clear_at(w: u64, t: u64, j: u64)
    by (bit_vector)
    requires
        w != 0,
        t < 64,
        j < 64,
        (w >> t) & 1u64 == 1u64,
        w << ((64 - t) as u64) == 0 || t == 0,
    ensures
        ((w & ((w - 1) as u64)) >> j) & 1u64 == (if j == t {
            0u64
        } else {
            (w >> j) & 1u64
        }),
        w & ((w - 1) as u64) < w,
{
}

/// Taking one less than a word from it clears its lowest set bit alone.
pub proof fn lemma_clear_lowest(w: u64, j: int)
    requires
        w != 0,
        0 <= j < 64,
    ensures
        bit(w & ((w - 1) as u64), j) <==> bit(w, j) && j != u64_trailing_zeros(w),
        w & ((w - 1) as u64) < w,
{
    axiom_u64_trailing_zeros(w);
    bv_clear_at(w, u64_trailing_zeros(w) as u64, j as u64);
}

/// Some bit is set in a word that is not zero, and none in one that is.
pub proof fn lemma_nonzero(w: u64)
    ensures
        w != 0 <==> exists|j: int| 0 <= j < 64 && #[trigger] bit(w, j),
{
    lemma_lowest(w);
}

/// A union is zero just where both words are.
pub proof fn lemma_or_zero(a: u64, b: u64)
    ensures
        a | b == 0 <==> a == 0 && b == 0,
{
    lemma_nonzero(a | b);
    lemma_nonzero(a);
    lemma_nonzero(b);
    if a != 0 {
        let j = choose|j: int| 0 <= j < 64 && #[trigger] bit(a, j);
        lemma_or(a, b, j);
        assert(bit(a | b, j));
    }
    if b != 0 {
        let j = choose|j: int| 0 <= j < 64 && #[trigger] bit(b, j);
        lemma_or(a, b, j);
        assert(bit(a | b, j));
    }
    if a | b != 0 {
        let j = choose|j: int| 0 <= j < 64 && #[trigger] bit(a | b, j);
        lemma_or(a, b, j);
        assert(bit(a, j) || bit(b, j));
    }
}

/// Whether bit `i` of `mask` is set.
pub fn get_bit(mask: &[u64], i: usize) -> (r: bool)
    requires
        i < 64 * mask@.len(),
    ensures
        r == mask_bit(mask@, i as int),
{
    (mask[i / 64] >> ((i % 64) as u64)) & 1 == 1
}

/// Sets bit `i` of `mask`.
pub fn set_bit(mask: &mut Vec<u64>, i: usize)
    requires
        i < 64 * old(mask)@.len(),
    ensures
        final(mask)@.len() == old(mask)@.len(),
        forall|j: int|
            0 <= j < 64 * old(mask)@.len() ==> #[trigger] mask_bit(final(mask)@, j) == (j == i
                || mask_bit(old(mask)@, j)),
{
    let w: usize = i / 64;
    let word: u64 = mask[w];
    let ghost before = mask@;
    mask.set(w, word | (1u64 << ((i % 64) as u64)));
    proof {
        assert forall|j: int| 0 <= j < 64 * before.len() implies #[trigger] mask_bit(mask@, j) == (j
            == i || mask_bit(before, j)) by {
            if j / 64 == w {
                lemma_set(word, (i % 64) as int, j % 64);
            }
        }
    }
}

/// A mask of zero words has no bit set.
pub proof fn lemma_mask_zero(mask: Seq<u64>, i: int)
    requires
        forall|k: int| 0 <= k < mask.len() ==> #[trigger] mask[k] == 0,
        0 <= i < 64 * mask.len(),
    ensures
        !mask_bit(mask, i),
{
    lemma_zero(i % 64);
    assert(mask[i / 64] == 0);
}

/// Some bit of `mask` is set in `a..b`.
pub open spec fn any_bit(mask: Seq<u64>, a: int, b: int) -> bool {
    exists|i: int| a <= i < b && #[trigger] mask_bit(mask, i)
}

/// Whether any bit of `mask` is set in `a..b`.
pub fn any_bit_in_range(mask: &[u64], a: usize, b: usize) -> (r: bool)
    requires
        a < b ==> b <= 64 * mask@.len(),
    ensures
        r == any_bit(mask@, a as int, b as int),
{
    if a >= b {
        return false;
    }
    let wa: usize = a / 64;
    let wb: usize = (b - 1) / 64;
    let lo: u64 = !0u64 << ((a % 64) as u64);
    let hi: u64 = !0u64 >> ((63 - (b - 1) % 64) as u64);
    let ghost m = mask@;
    if wa == wb {
        let w: u64 = mask[wa] & lo & hi;
        proof {
            lemma_nonzero(w);
            assert forall|j: int| 0 <= j < 64 implies #[trigger] bit(w, j) == (a <= wa * 64 + j < b
                && bit(m[wa as int], j)) by {
                lemma_and(m[wa as int] & lo, hi, j);
                lemma_and(m[wa as int], lo, j);
                lemma_high_ones((a % 64) as int, j);
                lemma_shifted_ones((63 - (b - 1) % 64) as int, j);
            }
            if w != 0 {
                let j = choose|j: int| 0 <= j < 64 && #[trigger] bit(w, j);
                assert(mask_bit(m, wa * 64 + j));
            }
            if any_bit(m, a as int, b as int) {
                let i = choose|i: int| a <= i < b && #[trigger] mask_bit(m, i);
                assert(bit(w, i % 64));
            }
        }
        return w != 0;
    }
    let w1: u64 = mask[wa] & lo;
    let w2: u64 = mask[wb] & hi;
    proof {
        lemma_nonzero(w1);
        lemma_nonzero(w2);
        assert forall|j: int| 0 <= j < 64 implies #[trigger] bit(w1, j) == (a <= wa * 64 + j && bit(
            m[wa as int],
            j,
        )) by {
            lemma_and(m[wa as int], lo, j);
            lemma_high_ones((a % 64) as int, j);
        }
        assert forall|j: int| 0 <= j < 64 implies #[trigger] bit(w2, j) == (wb * 64 + j < b && bit(
            m[wb as int],
            j,
        )) by {
            lemma_and(m[wb as int], hi, j);
            lemma_shifted_ones((63 - (b - 1) % 64) as int, j);
        }
    }
    if w1 != 0 || w2 != 0 {
        proof {
            if w1 != 0 {
                let j = choose|j: int| 0 <= j < 64 && #[trigger] bit(w1, j);
                assert(mask_bit(m, wa * 64 + j));
            } else {
                let j = choose|j: int| 0 <= j < 64 && #[trigger] bit(w2, j);
                assert(mask_bit(m, wb * 64 + j));
            }
        }
        return true;
    }
    let mut w: usize = wa + 1;
    while w < wb
        invariant
            m == mask@,
            wa < w <= wb,
            wb < m.len(),
            a / 64 == wa,
            (b - 1) / 64 == wb,
            a < b <= 64 * m.len(),
            forall|k: int| wa < k < w ==> #[trigger] m[k] == 0,
        decreases wb - w,
    {
        if mask[w] != 0 {
            proof {
                lemma_nonzero(m[w as int]);
                let j = choose|j: int| 0 <= j < 64 && #[trigger] bit(m[w as int], j);
                assert(mask_bit(m, w * 64 + j));
            }
            return true;
        }
        w = w + 1;
    }
    proof {
        if any_bit(m, a as int, b as int) {
            let i = choose|i: int| a <= i < b && #[trigger] mask_bit(m, i);
            if i / 64 == wa {
                assert(bit(w1, i % 64));
            } else if i / 64 == wb {
                assert(bit(w2, i % 64));
            } else {
                assert(m[i / 64] == 0);
                lemma_zero(i % 64);
            }
        }
    }
    false
}

/// Bit `i` of a mask is bit `i % 64` of word `i / 64`, lowest first, and `n`
/// bits take a word for every 64, the last filled up.
pub proof fn lemma_masks_mean(mask: Seq<u64>, i: int, n: int, a: int, b: int)
    ensures
        mask_bit(mask, i) <==> (mask[i / 64] >> ((i % 64) as u64)) & 1 == 1,
        n >= 0 ==> 64 * (words_for(n) - 1) < n <= 64 * words_for(n),
        any_bit(mask, a, b) <==> exists|j: int| a <= j < b && #[trigger] mask_bit(mask, j),
{
}

} // verus!
