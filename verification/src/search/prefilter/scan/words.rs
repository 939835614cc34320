//! Sets of ids packed 32 to a word.

use vstd::prelude::*;

verus! {

/// Ids held by one word.
pub const WORD_BITS: usize = 32;

/// Bit `j` of a word, lowest first.
pub open spec fn word_bit(w: u32, j: int) -> bool {
    (w >> (j as u32)) & 1 == 1
}

/// The words hold id `t`.
pub open spec fn holds_id(words: Seq<u32>, t: int) -> bool {
    word_bit(words[t / 32], t % 32)
}

proof fn bv_words(a: u32, b: u32, j: u32)
    by (bit_vector)
    requires
        j < 32,
    ensures
        (0u32 >> j) & 1 == 0,
        (!0u32 >> j) & 1 == 1,
        ((a | b) >> j) & 1 == 1 <==> (a >> j) & 1 == 1 || (b >> j) & 1 == 1,
        ((a & b) >> j) & 1 == 1 <==> (a >> j) & 1 == 1 && (b >> j) & 1 == 1,
{
}

proof fn bv_shifts(k: u32, j: u32)
    by (bit_vector)
    requires
        j < 32,
        k < 32,
    ensures
        ((1u32 << k) >> j) & 1 == 1 <==> j == k,
        ((!0u32 << k) >> j) & 1 == 1 <==> j >= k,
        ((!0u32 >> k) >> j) & 1 == 1 <==> j < 32 - k,
{
}

/// The bits of constant words, of a union and of an intersection.
pub proof fn lemma_words(a: u32, b: u32, j: int)
    requires
        0 <= j < 32,
    ensures
        !word_bit(0, j),
        word_bit(!0u32, j),
        word_bit(a | b, j) <==> word_bit(a, j) || word_bit(b, j),
        word_bit(a & b, j) <==> word_bit(a, j) && word_bit(b, j),
{
    bv_words(a, b, j as u32);
}

/// The bits of a single one, of all from `k` on, and of all but the highest `k`.
pub proof fn lemma_shifts(k: int, j: int)
    requires
        0 <= j < 32,
        0 <= k < 32,
    ensures
        word_bit(1u32 << (k as u32), j) <==> j == k,
        word_bit(!0u32 << (k as u32), j) <==> j >= k,
        word_bit(!0u32 >> (k as u32), j) <==> j < 32 - k,
{
    bv_shifts(k as u32, j as u32);
}

/// Zero words hold no id.
pub proof fn lemma_no_ids(words: Seq<u32>, t: int)
    requires
        forall|k: int| 0 <= k < words.len() ==> #[trigger] words[k] == 0,
        0 <= t < 32 * words.len(),
    ensures
        !holds_id(words, t),
{
    lemma_words(0, 0, t % 32);
    assert(words[t / 32] == 0);
}

/// Whether the words hold `id`.
pub fn test_id(words: &Vec<u32>, id: usize) -> (r: bool)
    requires
        id < 32 * words@.len(),
    ensures
        r == holds_id(words@, id as int),
{
    (words[id / WORD_BITS] >> ((id % WORD_BITS) as u32)) & 1 == 1
}

/// Adds `id` to the words.
pub fn add_id(words: &mut Vec<u32>, id: usize)
    requires
        id < 32 * old(words)@.len(),
    ensures
        final(words)@.len() == old(words)@.len(),
        forall|t: int|
            0 <= t < 32 * old(words)@.len() ==> #[trigger] holds_id(final(words)@, t) == (t == id
                || holds_id(old(words)@, t)),
{
    let w: usize = id / WORD_BITS;
    let word: u32 = words[w];
    let ghost before = words@;
    words.set(w, word | (1u32 << ((id % WORD_BITS) as u32)));
    proof {
        assert forall|t: int| 0 <= t < 32 * before.len() implies #[trigger] holds_id(words@, t) == (t
            == id || holds_id(before, t)) by {
            if t / 32 == w {
                lemma_words(word, 1u32 << ((id % 32) as u32), t % 32);
                lemma_shifts((id % 32) as int, t % 32);
            }
        }
    }
}

} // verus!
