//! Why a match needs a run of consecutive codes that stir the automaton.
//!
//! A code that leads every state short of the full match back to state 0 makes
//! the automaton forget what it has read. Only runs of the other codes can
//! carry a match, and a match of `m` bytes over tokens of at most `l` bytes is
//! a run of at least `m / l` of them, rounded up.

use crate::dictionary::{codes_ok, decode, lemma_decode_concat};
use crate::query::dfa::{lemma_row_decides, lemma_row_start, lemma_row_step};
use crate::text::{contains, lemma_run_concat, lemma_run_is_state, lemma_state_bound, run};
use crate::types::Token;
use crate::count::{lemma_count_next, lemma_count_none};
use vstd::prelude::*;
use vstd::set_lib::set_int_range;

verus! {

/// Cap on the number of consecutive codes that the combination test asks for.
pub const MAX_COMBO: usize = 3;

/// `token` leads some state short of the full match to a state other than 0.
pub open spec fn stirs(pattern: Seq<u8>, token: Seq<u8>) -> bool {
    stirs_from(pattern, token, pattern.len() as int)
}

/// `token` leads some state below `k` to a state other than 0.
pub open spec fn stirs_from(pattern: Seq<u8>, token: Seq<u8>, k: int) -> bool {
    exists|s: int| 0 <= s < k && #[trigger] run(pattern, s as nat, token) != 0
}

/// The length of the longest of the first `k` tokens that stirs the automaton.
pub open spec fn longest_stirring(pattern: Seq<u8>, tokens: Seq<Seq<u8>>, k: nat) -> nat
    decreases k,
{
    if k == 0 {
        0
    } else {
        let before = longest_stirring(pattern, tokens, (k - 1) as nat);
        let token = tokens[k - 1];
        if stirs(pattern, token) && token.len() > before {
            token.len()
        } else {
            before
        }
    }
}

/// The number of the first `k` tokens that stir the automaton.
pub open spec fn stirring_count(pattern: Seq<u8>, tokens: Seq<Seq<u8>>, k: nat) -> nat
    decreases k,
{
    if k == 0 {
        0
    } else {
        stirring_count(pattern, tokens, (k - 1) as nat) + (if stirs(pattern, tokens[k - 1]) {
            1nat
        } else {
            0nat
        })
    }
}

/// The number of consecutive stirring codes that a match of `m` bytes needs
/// where the longest of their tokens has `lmax`, kept within `1..=MAX_COMBO`.
pub open spec fn combo_of(m: int, lmax: int) -> int {
    if lmax == 0 {
        1
    } else {
        let whole = (m + lmax - 1) / lmax;
        if whole < 1 {
            1
        } else if whole > MAX_COMBO {
            MAX_COMBO as int
        } else {
            whole
        }
    }
}

/// [`combo_of`], computed.
pub fn combo_depth(m: usize, lmax: usize) -> (r: usize)
    requires
        1 <= m <= 65535,
        lmax <= 0xffff_ffff,
    ensures
        r == combo_of(m as int, lmax as int),
        1 <= r <= MAX_COMBO,
        (r - 1) * lmax < m,
{
    if lmax == 0 {
        return 1;
    }
    let whole: usize = m / lmax + (if m % lmax == 0 {
        0usize
    } else {
        1usize
    });
    proof {
        lemma_ceil(m as int, lmax as int, whole as int);
    }
    if whole > MAX_COMBO {
        proof {
            assert(2 * lmax <= (whole - 1) * lmax) by (nonlinear_arith)
                requires
                    whole > 3,
                    lmax >= 0,
            ;
        }
        MAX_COMBO
    } else {
        whole
    }
}

proof fn lemma_ceil(m: int, l: int, whole: int)
    requires
        m >= 1,
        l >= 1,
        whole == m / l + (if m % l == 0 {
            0int
        } else {
            1int
        }),
    ensures
        whole == (m + l - 1) / l,
        whole >= 1,
        (whole - 1) * l < m,
{
    vstd::arithmetic::div_mod::lemma_fundamental_div_mod(m, l);
    let q = m / l;
    let r = m % l;
    assert(l * q == q * l) by (nonlinear_arith);
    if r == 0 {
        assert(m + l - 1 == q * l + (l - 1));
        vstd::arithmetic::div_mod::lemma_fundamental_div_mod_converse(m + l - 1, l, q, l - 1);
        assert((q - 1) * l < q * l) by (nonlinear_arith)
            requires
                l >= 1,
        ;
        assert(q >= 1) by (nonlinear_arith)
            requires
                q * l == m,
                m >= 1,
                l >= 1,
        ;
    } else {
        assert(m + l - 1 == q * l + l + (r - 1));
        assert(q * l + l == (q + 1) * l) by (nonlinear_arith);
        vstd::arithmetic::div_mod::lemma_fundamental_div_mod_converse(m + l - 1, l, q + 1, r - 1);
        assert(q >= 0) by (nonlinear_arith)
            requires
                q * l + r == m,
                0 <= r < l,
                m >= 1,
        ;
    }
}

/// The first code that completes the match.
pub proof fn first_accept(pattern: Seq<u8>, tokens: Seq<Seq<u8>>, codes: Seq<Token>, k: int) -> (e: int)
    requires
        pattern.len() > 0,
        0 <= k <= codes.len(),
        run(pattern, 0, decode(tokens, codes.take(k))) == pattern.len(),
    ensures
        0 <= e < k,
        run(pattern, 0, decode(tokens, codes.take(e + 1))) == pattern.len(),
        forall|i: int|
            0 <= i <= e ==> #[trigger] run(pattern, 0, decode(tokens, codes.take(i)))
                < pattern.len(),
    decreases k,
{
    lemma_row_start(pattern, tokens, codes);
    assert forall|i: int| 0 <= i <= codes.len() implies #[trigger] run(
        pattern,
        0,
        decode(tokens, codes.take(i)),
    ) <= pattern.len() by {
        lemma_row_decides(pattern, tokens, codes.take(i));
    }
    if exists|i: int|
        0 <= i < k && #[trigger] run(pattern, 0, decode(tokens, codes.take(i))) == pattern.len() {
        let i = choose|i: int|
            0 <= i < k && #[trigger] run(pattern, 0, decode(tokens, codes.take(i)))
                == pattern.len();
        first_accept(pattern, tokens, codes, i)
    } else {
        k - 1
    }
}

/// Going back from the code `e` that completes the match, the last `k` codes
/// stir the automaton, as long as fewer than the pattern's bytes lie after the
/// earliest of them.
proof fn lemma_back(
    pattern: Seq<u8>,
    tokens: Seq<Seq<u8>>,
    codes: Seq<Token>,
    e: int,
    k: int,
    lmax: int,
)
    requires
        pattern.len() > 0,
        0 <= e < codes.len(),
        run(pattern, 0, decode(tokens, codes.take(e + 1))) == pattern.len(),
        forall|i: int|
            0 <= i <= e ==> #[trigger] run(pattern, 0, decode(tokens, codes.take(i)))
                < pattern.len(),
        forall|i: int|
            0 <= i <= e && #[trigger] stirs(pattern, tokens[codes[i] as int])
                ==> tokens[codes[i] as int].len() <= lmax,
        k >= 0,
        lmax >= 0,
        k > 0 ==> (k - 1) * lmax < pattern.len(),
    ensures
        k <= e + 1,
        decode(tokens, codes.subrange(e + 1 - k, e + 1)).len() <= k * lmax,
        forall|i: int|
            e + 1 - k <= i <= e ==> stirs(pattern, tokens[#[trigger] codes[i] as int]),
    decreases k,
{
    if k == 0 {
        assert(codes.subrange(e + 1, e + 1) =~= Seq::<Token>::empty());
    } else {
        if k > 1 {
            assert((k - 2) * lmax <= (k - 1) * lmax) by (nonlinear_arith)
                requires
                    lmax >= 0,
            ;
        }
        lemma_back(pattern, tokens, codes, e, k - 1, lmax);
        // The state before the last k - 1 codes cannot be 0: from 0 their
        // bytes are too few for the pattern.
        let t1 = e + 1 - (k - 1);
        let tail = codes.subrange(t1, e + 1);
        let d = decode(tokens, tail);
        assert(codes.take(t1) + tail =~= codes.take(e + 1));
        lemma_decode_concat(tokens, codes.take(t1), tail);
        lemma_run_concat(pattern, 0, decode(tokens, codes.take(t1)), d);
        let st = run(pattern, 0, decode(tokens, codes.take(t1)));
        assert(st != 0) by {
            if st == 0 {
                lemma_run_is_state(pattern, d);
                lemma_state_bound(pattern, d);
                assert(contains(d, pattern));
                let p = choose|p: int| crate::text::occurs_at(d, pattern, p);
                assert(d.len() >= pattern.len());
            }
        }
        assert(t1 > 0) by {
            if t1 == 0 {
                lemma_row_start(pattern, tokens, codes);
            }
        }
        let t = t1 - 1;
        lemma_row_step(pattern, tokens, codes, t);
        let before = run(pattern, 0, decode(tokens, codes.take(t)));
        assert(before < pattern.len());
        let from = before as int;
        assert(run(pattern, from as nat, tokens[codes[t] as int]) != 0);
        assert(stirs(pattern, tokens[codes[t] as int]));
        assert(codes.subrange(t, e + 1) =~= seq![codes[t]] + tail);
        lemma_decode_concat(tokens, seq![codes[t]], tail);
        crate::dictionary::lemma_decode_one(tokens, codes[t]);
        assert(lmax + (k - 1) * lmax == k * lmax) by (nonlinear_arith);
    }
}

/// A row that contains the pattern holds `combo` consecutive stirring codes,
/// where tokens of that many codes but one are shorter than the pattern.
pub proof fn lemma_match_needs_window(
    pattern: Seq<u8>,
    tokens: Seq<Seq<u8>>,
    codes: Seq<Token>,
    combo: int,
    lmax: int,
)
    requires
        pattern.len() > 0,
        codes_ok(codes, tokens.len()),
        contains(decode(tokens, codes), pattern),
        forall|c: int|
            0 <= c < tokens.len() && #[trigger] stirs(pattern, tokens[c]) ==> tokens[c].len()
                <= lmax,
        combo >= 1,
        lmax >= 0,
        (combo - 1) * lmax < pattern.len(),
    ensures
        exists|i: int|
            0 <= i <= codes.len() - combo && #[trigger] stirring_window(
                pattern,
                tokens,
                codes,
                combo,
                i,
            ),
{
    lemma_row_decides(pattern, tokens, codes);
    assert(codes.take(codes.len() as int) =~= codes);
    let e = first_accept(pattern, tokens, codes, codes.len() as int);
    assert forall|i: int|
        0 <= i <= e && #[trigger] stirs(pattern, tokens[codes[i] as int]) implies tokens[codes[i] as int].len()
        <= lmax by {
        assert(codes[i] < tokens.len());
    }
    lemma_back(pattern, tokens, codes, e, combo, lmax);
    assert(stirring_window(pattern, tokens, codes, combo, e + 1 - combo));
}

/// The codes of the window all stir the automaton.
pub open spec fn stirring_window(
    pattern: Seq<u8>,
    tokens: Seq<Seq<u8>>,
    codes: Seq<Token>,
    combo: int,
    i: int,
) -> bool {
    forall|k: int| i <= k < i + combo ==> stirs(pattern, tokens[#[trigger] codes[k] as int])
}

/// No stirring token is longer than the longest.
pub proof fn lemma_longest(pattern: Seq<u8>, tokens: Seq<Seq<u8>>, k: nat)
    requires
        k <= tokens.len(),
    ensures
        forall|c: int|
            0 <= c < k && #[trigger] stirs(pattern, tokens[c]) ==> tokens[c].len()
                <= longest_stirring(pattern, tokens, k),
    decreases k,
{
    if k > 0 {
        lemma_longest(pattern, tokens, (k - 1) as nat);
    }
}

/// A token stirs the automaton just when it leads some state short of the full
/// match elsewhere than to 0.
pub proof fn lemma_stirs_means(pattern: Seq<u8>, token: Seq<u8>)
    ensures
        stirs(pattern, token) <==> exists|s: int|
            0 <= s < pattern.len() && #[trigger] run(pattern, s as nat, token) != 0,
{
}

/// The longest stirring length is that of a stirring token, where there is
/// one, and no stirring token is longer.
pub proof fn lemma_longest_is_greatest(pattern: Seq<u8>, tokens: Seq<Seq<u8>>, k: nat)
    requires
        k <= tokens.len(),
    ensures
        forall|c: int|
            0 <= c < k && #[trigger] stirs(pattern, tokens[c]) ==> tokens[c].len()
                <= longest_stirring(pattern, tokens, k),
        longest_stirring(pattern, tokens, k) > 0 ==> exists|c: int|
            0 <= c < k && #[trigger] stirs(pattern, tokens[c]) && tokens[c].len()
                == longest_stirring(pattern, tokens, k),
    decreases k,
{
    lemma_longest(pattern, tokens, k);
    if k > 0 {
        lemma_longest_is_greatest(pattern, tokens, (k - 1) as nat);
        if longest_stirring(pattern, tokens, k) > 0 {
            if stirs(pattern, tokens[k - 1]) && tokens[k - 1].len() > longest_stirring(
                pattern,
                tokens,
                (k - 1) as nat,
            ) {
                assert(stirs(pattern, tokens[k - 1]));
            } else {
                let c = choose|c: int|
                    0 <= c < k - 1 && #[trigger] stirs(pattern, tokens[c]) && tokens[c].len()
                        == longest_stirring(pattern, tokens, (k - 1) as nat);
                assert(stirs(pattern, tokens[c]));
            }
        }
    }
}

/// The stirring tokens are counted one by one.
pub proof fn lemma_stirring_counted(pattern: Seq<u8>, tokens: Seq<Seq<u8>>, k: nat)
    ensures
        stirring_count(pattern, tokens, k) == set_int_range(0, k as int).filter(
            |c: int| stirs(pattern, tokens[c]),
        ).len(),
    decreases k,
{
    let f = |c: int| stirs(pattern, tokens[c]);
    if k == 0 {
        lemma_count_none(f);
    } else {
        lemma_stirring_counted(pattern, tokens, (k - 1) as nat);
        lemma_count_next(k - 1, f);
    }
}

/// The combination depth is the least number of tokens of the longest length
/// that reach the pattern's, three at the most, and one where no token counts.
pub proof fn lemma_combo_is_least(m: int, lmax: int)
    requires
        m >= 1,
        lmax >= 0,
    ensures
        1 <= combo_of(m, lmax) <= 3,
        lmax == 0 ==> combo_of(m, lmax) == 1,
        (combo_of(m, lmax) - 1) * lmax < m,
        lmax > 0 && combo_of(m, lmax) < 3 ==> combo_of(m, lmax) * lmax >= m,
{
    if lmax > 0 {
        let whole = (m + lmax - 1) / lmax;
        vstd::arithmetic::div_mod::lemma_fundamental_div_mod(m + lmax - 1, lmax);
        assert(lmax * whole == whole * lmax) by (nonlinear_arith);
        assert((whole - 1) * lmax == whole * lmax - lmax) by (nonlinear_arith);
        assert(whole >= 1) by (nonlinear_arith)
            requires
                whole * lmax > m - 1,
                m >= 1,
                lmax >= 1,
        ;
        if whole > 3 {
            assert(2 * lmax <= (whole - 1) * lmax) by (nonlinear_arith)
                requires
                    whole > 3,
                    lmax >= 0,
            ;
        }
    }
}

} // verus!
