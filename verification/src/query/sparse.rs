//! Sparse form of the token automaton, and the scan shapes it unlocks.
//!
//! Composing the byte automaton over a token from state `s` gives what it
//! gives from state 0 unless the token's first byte extends a pattern prefix
//! alive at `s`. So the transitions shrink to one base destination per token
//! and, per state, the few tokens whose destination differs from it.
//!
//! A code that leads every state to 0 ends whatever match was under way: only
//! runs of the other codes can carry a match. The combination prefilter asks a
//! row for a run of that many of them before the row is walked.

use crate::bits::{mask_bit, set_bit, words_for};
use crate::dictionary::{
    codes_ok, decode, dict_ok, row_contains, token_at, token_count, tokens_of, Parts,
};
use crate::query::dfa::{
    byte_automaton, is_automaton, lemma_row_accepts, lemma_row_decides, lemma_row_start,
    lemma_row_step, walk_token, MAX_PATTERN_LEN,
};
use crate::query::filter::{combined_mask, count_set_bits, window, Filter};
use crate::query::scan::{
    lemma_row_codes_ok, rows_masked, rows_unfiltered, rows_windowed, windowed, RowWalk,
};
use crate::query::window::{
    combo_depth, combo_of, lemma_combo_is_least, lemma_longest, lemma_longest_is_greatest,
    lemma_match_needs_window, longest_stirring, stirring_count, stirring_window, stirs, stirs_from,
    MAX_COMBO,
};
use crate::rows::{all_rows, bounds, every_row, row_codes, row_count, rows_ok, selected, Offset};
use crate::text::{contains, lemma_contains_empty, lemma_run_bound, lemma_run_first, run, step};
use crate::types::{Token, MAX_TOKENS};
use crate::count::{lemma_count_next, lemma_count_none};
use vstd::prelude::*;
use vstd::set_lib::set_int_range;

verus! {

/// Bytes that one exception takes up: a code and a state, aligned.
pub const EXCEPTION_BYTES: usize = 4;

/// Token `c` leads state `s` elsewhere than state 0.
pub open spec fn is_exception(pattern: Seq<u8>, tokens: Seq<Seq<u8>>, s: int, c: int) -> bool {
    run(pattern, s as nat, tokens[c]) != run(pattern, 0, tokens[c])
}

/// The number of the first `k` tokens that are exceptions at state `s`.
pub open spec fn exceptions_at(pattern: Seq<u8>, tokens: Seq<Seq<u8>>, s: int, k: nat) -> nat
    decreases k,
{
    if k == 0 {
        0
    } else {
        exceptions_at(pattern, tokens, s, (k - 1) as nat) + (if is_exception(
            pattern,
            tokens,
            s,
            k - 1,
        ) {
            1nat
        } else {
            0nat
        })
    }
}

/// The number of exceptions at the states `1..k`.
pub open spec fn exceptions_below(pattern: Seq<u8>, tokens: Seq<Seq<u8>>, k: nat) -> nat
    decreases k,
{
    if k <= 1 {
        0
    } else {
        exceptions_below(pattern, tokens, (k - 1) as nat) + exceptions_at(
            pattern,
            tokens,
            k - 1,
            tokens.len(),
        )
    }
}

/// `list` holds the exceptions of state `s` among the first `k` tokens, by
/// ascending code.
spec fn is_exception_list(
    list: Seq<(Token, u8)>,
    pattern: Seq<u8>,
    tokens: Seq<Seq<u8>>,
    s: int,
    k: int,
) -> bool {
    &&& list.len() == exceptions_at(pattern, tokens, s, k as nat)
    &&& list.len() <= k
    &&& forall|i: int|
        0 <= i < list.len() ==> (#[trigger] list[i]).0 < k && list[i].1 == run(
            pattern,
            s as nat,
            tokens[list[i].0 as int],
        )
    &&& forall|i: int, j: int|
        0 <= i < j < list.len() ==> (#[trigger] list[i]).0 < (#[trigger] list[j]).0
    &&& forall|c: int|
        0 <= c < k && #[trigger] is_exception(pattern, tokens, s, c) ==> exists|i: int|
            0 <= i < list.len() && (#[trigger] list[i]).0 == c
}

/// A `contains` query over the sparse token automaton. Compiled from the
/// dictionary alone, and reusable across code streams over it.
pub struct SparseSearcher {
    /// `None` for the empty pattern, which matches every row.
    inner: Option<Inner>,
    tokens: Ghost<Seq<Seq<u8>>>,
    pattern: Ghost<Seq<u8>>,
}

struct Inner {
    base: Vec<u8>,
    exceptions: Vec<Vec<(Token, u8)>>,
    filter: Filter,
    combo: usize,
    interesting: usize,
    accept: u8,
    tokens: Ghost<Seq<Seq<u8>>>,
    pattern: Ghost<Seq<u8>>,
}

/// Compile-time shape of a [`SparseSearcher`].
#[derive(Debug, Clone, Copy, PartialEq, Eq, Structural)]
pub struct SparseInfo {
    /// Bytes of the transition structure: one per token, and the exceptions.
    pub transition_bytes: usize,
    /// Total `(state, code)` exception pairs.
    pub exceptions: usize,
    /// Codes that lead some state elsewhere than 0.
    pub interesting: usize,
    /// Consecutive such codes that a match must contain.
    pub combo: usize,
}

impl Inner {
    spec fn wf(&self) -> bool {
        let p = self.pattern@;
        let t = self.tokens@;
        &&& 1 <= p.len() <= MAX_PATTERN_LEN
        &&& t.len() <= MAX_TOKENS
        &&& self.base@.len() == t.len()
        &&& forall|c: int| 0 <= c < t.len() ==> #[trigger] self.base@[c] == run(p, 0, t[c])
        &&& self.exceptions@.len() == p.len() + 1
        &&& forall|s: int|
            1 <= s < p.len() ==> is_exception_list(
                #[trigger] self.exceptions@[s]@,
                p,
                t,
                s,
                t.len() as int,
            )
        &&& self.exceptions@[0]@.len() == 0
        &&& self.exceptions@[p.len() as int]@.len() == 0
        &&& self.filter.wf()
        &&& forall|c: int| 0 <= c < t.len() ==> #[trigger] self.filter.admits(c) == stirs(p, t[c])
        &&& self.combo == combo_of(p.len() as int, longest_stirring(p, t, t.len()) as int)
        &&& 1 <= self.combo <= MAX_COMBO
        &&& (self.combo - 1) * longest_stirring(p, t, t.len()) < p.len()
        &&& self.interesting == stirring_count(p, t, t.len())
        &&& self.accept == p.len()
    }

    /// The destination that state `s` has an exception for at `c`, if any.
    fn exception(&self, s: usize, c: Token) -> (r: Option<u8>)
        requires
            self.wf(),
            1 <= s < self.pattern@.len(),
            c < self.tokens@.len(),
        ensures
            r matches Some(d) ==> d == run(self.pattern@, s as nat, self.tokens@[c as int]),
            r is None ==> run(self.pattern@, s as nat, self.tokens@[c as int]) == run(
                self.pattern@,
                0,
                self.tokens@[c as int],
            ),
    {
        let list: &Vec<(Token, u8)> = &self.exceptions[s];
        let ghost l = list@;
        assert(is_exception_list(
            self.exceptions@[s as int]@,
            self.pattern@,
            self.tokens@,
            s as int,
            self.tokens@.len() as int,
        ));
        let mut lo: usize = 0;
        let mut hi: usize = list.len();
        while lo < hi
            invariant
                l == list@,
                lo <= hi <= l.len(),
                is_exception_list(
                    l,
                    self.pattern@,
                    self.tokens@,
                    s as int,
                    self.tokens@.len() as int,
                ),
                forall|i: int| 0 <= i < lo ==> (#[trigger] l[i]).0 < c,
                forall|i: int| hi <= i < l.len() ==> (#[trigger] l[i]).0 > c,
            decreases hi - lo,
        {
            let mid: usize = lo + (hi - lo) / 2;
            let (code, dest) = list[mid];
            if code == c {
                return Some(dest);
            } else if code < c {
                lo = mid + 1;
            } else {
                hi = mid;
            }
        }
        proof {
            if is_exception(self.pattern@, self.tokens@, s as int, c as int) {
                let i = choose|i: int| 0 <= i < l.len() && (#[trigger] l[i]).0 == c;
                assert(false);
            }
        }
        None
    }

    /// One automaton step. State 0 reads the base destination; other states
    /// look at their exceptions first.
    fn step(&self, s: usize, c: Token) -> (r: usize)
        requires
            self.wf(),
            s < self.pattern@.len(),
            c < self.tokens@.len(),
        ensures
            r == run(self.pattern@, s as nat, self.tokens@[c as int]),
    {
        if s == 0 {
            return self.base[c as usize] as usize;
        }
        match self.exception(s, c) {
            Some(d) => d as usize,
            None => self.base[c as usize] as usize,
        }
    }

    /// Bit `i` is set exactly when `combo` stirring codes begin at `i`.
    fn combined(&self, codes: &[Token]) -> (mask: Vec<u64>)
        requires
            self.wf(),
            codes_ok(codes@, self.tokens@.len()),
        ensures
            mask@.len() == words_for(codes@.len() as int),
            forall|i: int|
                0 <= i < 64 * mask@.len() ==> #[trigger] mask_bit(mask@, i) == (i + self.combo
                    <= codes@.len() && stirring_window(
                    self.pattern@,
                    self.tokens@,
                    codes@,
                    self.combo as int,
                    i,
                )),
    {
        let mask = combined_mask(&self.filter, codes, self.combo);
        proof {
            let p = self.pattern@;
            let t = self.tokens@;
            assert forall|i: int| 0 <= i < 64 * mask@.len() implies #[trigger] mask_bit(mask@, i)
                == (i + self.combo <= codes@.len() && stirring_window(
                p,
                t,
                codes@,
                self.combo as int,
                i,
            )) by {
                lemma_window_stirs(&self.filter, p, t, codes@, self.combo as int, i);
            }
        }
        mask
    }
}

/// A window of the filter's codes is a window of stirring codes.
pub proof fn lemma_window_stirs(
    f: &Filter,
    pattern: Seq<u8>,
    tokens: Seq<Seq<u8>>,
    codes: Seq<Token>,
    combo: int,
    i: int,
)
    requires
        codes_ok(codes, tokens.len()),
        forall|c: int| 0 <= c < tokens.len() ==> #[trigger] f.admits(c) == stirs(pattern, tokens[c]),
        0 <= i,
        combo >= 0,
    ensures
        window(f, codes, combo, i) == (i + combo <= codes.len() && stirring_window(
            pattern,
            tokens,
            codes,
            combo,
            i,
        )),
{
    if i + combo <= codes.len() {
        assert forall|k: int| i <= k < i + combo implies #[trigger] f.admits(codes[k] as int)
            == stirs(pattern, tokens[codes[k] as int]) by {
            assert(codes[k] < tokens.len());
        }
        if stirring_window(pattern, tokens, codes, combo, i) {
            assert forall|k: int| i <= k < i + combo implies #[trigger] f.admits(codes[k] as int) by {
                assert(stirs(pattern, tokens[codes[k] as int]));
            }
        }
        if window(f, codes, combo, i) {
            assert forall|k: int| i <= k < i + combo implies stirs(
                pattern,
                tokens[#[trigger] codes[k] as int],
            ) by {
                assert(f.admits(codes[k] as int));
            }
        }
    }
}

/// A row that contains the pattern holds a set bit with room for its window.
pub proof fn lemma_row_windowed(
    pattern: Seq<u8>,
    tokens: Seq<Seq<u8>>,
    codes: Seq<Token>,
    b: Seq<int>,
    mask: Seq<u64>,
    combo: int,
    lmax: int,
    r: int,
)
    requires
        pattern.len() > 0,
        codes_ok(codes, tokens.len()),
        rows_ok(b, codes.len() as int),
        mask.len() == words_for(codes.len() as int),
        forall|i: int|
            0 <= i < 64 * mask.len() ==> #[trigger] mask_bit(mask, i) == (i + combo <= codes.len()
                && stirring_window(pattern, tokens, codes, combo, i)),
        forall|c: int|
            0 <= c < tokens.len() && #[trigger] stirs(pattern, tokens[c]) ==> tokens[c].len()
                <= lmax,
        combo >= 1,
        lmax >= 0,
        (combo - 1) * lmax < pattern.len(),
        0 <= r < row_count(b),
        row_contains(tokens, codes, b, pattern)(r),
    ensures
        windowed(mask, b, combo)(r),
{
    let row = row_codes(codes, b, r);
    lemma_row_codes_ok(codes, b, r, tokens.len());
    lemma_match_needs_window(pattern, tokens, row, combo, lmax);
    let i = choose|i: int|
        0 <= i <= row.len() - combo && #[trigger] stirring_window(pattern, tokens, row, combo, i);
    let at = b[r] + i;
    assert(stirring_window(pattern, tokens, codes, combo, at)) by {
        assert forall|k: int| at <= k < at + combo implies stirs(
            pattern,
            tokens[#[trigger] codes[k] as int],
        ) by {
            assert(row[k - b[r]] == codes[k]);
            assert(stirs(pattern, tokens[row[k - b[r]] as int]));
        }
    }
    assert(mask_bit(mask, at));
}

impl RowWalk for Inner {
    closed spec fn looks_for(&self) -> Seq<u8> {
        self.pattern@
    }

    closed spec fn over(&self) -> Seq<Seq<u8>> {
        self.tokens@
    }

    closed spec fn ready(&self) -> bool {
        self.wf()
    }

    fn walk(&self, codes: &[Token]) -> (r: bool) {
        let accept: usize = self.accept as usize;
        let ghost p = self.pattern@;
        let ghost toks = self.tokens@;
        let ghost cs = codes@;
        let mut s: usize = 0;
        let mut i: usize = 0;
        proof {
            lemma_row_start(p, toks, cs);
        }
        while i < codes.len()
            invariant
                i <= cs.len(),
                cs == codes@,
                p == self.pattern@,
                toks == self.tokens@,
                accept == p.len(),
                self.wf(),
                codes_ok(cs, toks.len()),
                s < accept,
                s == run(p, 0, decode(toks, cs.take(i as int))),
            decreases cs.len() - i,
        {
            proof {
                assert(cs[i as int] < toks.len());
                lemma_row_step(p, toks, cs, i as int);
                lemma_run_bound(p, 0, decode(toks, cs.take(i + 1)));
            }
            s = self.step(s, codes[i]);
            i = i + 1;
            if s == accept {
                proof {
                    lemma_row_accepts(p, toks, cs, i as int);
                }
                return true;
            }
        }
        proof {
            assert(cs.take(i as int) =~= cs);
            lemma_row_decides(p, toks, cs);
        }
        false
    }
}

impl SparseSearcher {
    /// The pattern that the searcher looks for.
    pub closed spec fn pattern(&self) -> Seq<u8> {
        self.pattern@
    }

    /// The tokens of the dictionary that it was compiled from.
    pub closed spec fn tokens(&self) -> Seq<Seq<u8>> {
        self.tokens@
    }

    /// The searcher is that of its pattern and dictionary.
    pub closed spec fn wf(&self) -> bool {
        match self.inner {
            None => self.pattern@.len() == 0,
            Some(i) => i.wf() && i.pattern@ == self.pattern@ && i.tokens@ == self.tokens@,
        }
    }

    /// The rows that the combination prefilter leaves: all of them for the
    /// empty pattern, and else those that hold as many consecutive stirring
    /// codes as a match needs.
    pub open spec fn candidates(&self, codes: Seq<Token>, b: Seq<int>) -> spec_fn(int) -> bool {
        candidate_row(self.pattern(), self.tokens(), codes, b)
    }

    /// Compiles a searcher for `pattern` against a column. Only the dictionary
    /// is read.
    pub fn compile(parts: Parts<'_>, pattern: &[u8]) -> (s: SparseSearcher)
        requires
            parts.dictionary_ok(),
            pattern@.len() <= MAX_PATTERN_LEN,
        ensures
            s.wf(),
            s.pattern() == pattern@,
            s.tokens() == parts.tokens(),
    {
        Self::compile_dict(parts.dict_bytes, parts.dict_offsets, pattern)
    }

    /// [`compile`](Self::compile) from the dictionary arrays alone.
    pub fn compile_dict(dict_bytes: &[u8], dict_offsets: &[u32], pattern: &[u8]) -> (s: SparseSearcher)
        requires
            dict_ok(dict_bytes@, dict_offsets@),
            pattern@.len() <= MAX_PATTERN_LEN,
        ensures
            s.wf(),
            s.pattern() == pattern@,
            s.tokens() == tokens_of(dict_bytes@, dict_offsets@),
    {
        let ghost toks = tokens_of(dict_bytes@, dict_offsets@);
        let ghost p = pattern@;
        if pattern.len() == 0 {
            return SparseSearcher { inner: None, tokens: Ghost(toks), pattern: Ghost(p) };
        }
        let m: usize = pattern.len();
        let n: usize = token_count(dict_offsets);
        let delta = byte_automaton(pattern);

        // The destination from state 0 per token, and whether any state seen
        // so far leads elsewhere than 0.
        let mut base: Vec<u8> = Vec::new();
        let mut live: Vec<bool> = Vec::new();
        let mut c: usize = 0;
        while c < n
            invariant
                c <= n,
                n == toks.len(),
                toks == tokens_of(dict_bytes@, dict_offsets@),
                dict_ok(dict_bytes@, dict_offsets@),
                p == pattern@,
                m == p.len(),
                1 <= m <= MAX_PATTERN_LEN,
                is_automaton(delta@, p),
                base@.len() == c,
                live@.len() == c,
                forall|i: int| 0 <= i < c ==> #[trigger] base@[i] == run(p, 0, toks[i]),
                forall|i: int| 0 <= i < c ==> #[trigger] live@[i] == stirs_from(p, toks[i], 1),
            decreases n - c,
        {
            let token = token_at(dict_bytes, dict_offsets, c);
            let d: u8 = walk_token(&delta, m, 0, token, Ghost(p));
            proof {
                assert(stirs_from(p, toks[c as int], 1) == (d != 0)) by {
                    let zero: int = 0;
                    assert(run(p, zero as nat, toks[c as int]) == d);
                }
            }
            base.push(d);
            live.push(d != 0);
            c = c + 1;
        }

        // A destination can differ from the base one only where the token's
        // first byte does.
        let mut exceptions: Vec<Vec<(Token, u8)>> = Vec::new();
        exceptions.push(Vec::new());
        let mut s: usize = 1;
        while s < m
            invariant
                1 <= s <= m,
                n == toks.len(),
                n <= MAX_TOKENS,
                toks == tokens_of(dict_bytes@, dict_offsets@),
                dict_ok(dict_bytes@, dict_offsets@),
                p == pattern@,
                m == p.len(),
                1 <= m <= MAX_PATTERN_LEN,
                is_automaton(delta@, p),
                base@.len() == n,
                live@.len() == n,
                forall|i: int| 0 <= i < n ==> #[trigger] base@[i] == run(p, 0, toks[i]),
                forall|i: int| 0 <= i < n ==> #[trigger] live@[i] == stirs_from(p, toks[i], s as int),
                exceptions@.len() == s,
                exceptions@[0]@.len() == 0,
                forall|q: int|
                    1 <= q < s ==> is_exception_list(
                        #[trigger] exceptions@[q]@,
                        p,
                        toks,
                        q,
                        n as int,
                    ),
            decreases m - s,
        {
            let mut list: Vec<(Token, u8)> = Vec::new();
            let mut c: usize = 0;
            while c < n
                invariant
                    1 <= s < m,
                    c <= n,
                    n == toks.len(),
                    n <= MAX_TOKENS,
                    toks == tokens_of(dict_bytes@, dict_offsets@),
                    dict_ok(dict_bytes@, dict_offsets@),
                    p == pattern@,
                    m == p.len(),
                    1 <= m <= MAX_PATTERN_LEN,
                    is_automaton(delta@, p),
                    base@.len() == n,
                    live@.len() == n,
                    forall|i: int| 0 <= i < n ==> #[trigger] base@[i] == run(p, 0, toks[i]),
                    forall|i: int|
                        0 <= i < c ==> #[trigger] live@[i] == stirs_from(p, toks[i], s + 1),
                    forall|i: int|
                        c <= i < n ==> #[trigger] live@[i] == stirs_from(p, toks[i], s as int),
                    is_exception_list(list@, p, toks, s as int, c as int),
                decreases n - c,
            {
                let token = token_at(dict_bytes, dict_offsets, c);
                let b: usize = token[0] as usize;
                let ghost before = list@;
                let ghost live_before = live@;
                proof {
                    assert(delta@[s * 256 + b] == step(p, s as nat, b as u8));
                    assert(delta@[0 * 256 + b] == step(p, 0, b as u8));
                }
                if delta[s * 256 + b] != delta[b] {
                    let d: u8 = walk_token(&delta, m, s, token, Ghost(p));
                    if d != base[c] {
                        list.push((c as Token, d));
                        live.set(c, true);
                        assert(is_exception(p, toks, s as int, c as int));
                        assert(list@ == before.push((c as Token, d)));
                    }
                } else {
                    proof {
                        lemma_run_first(p, s as nat, 0, token@);
                    }
                }
                proof {
                    lemma_live_step(p, toks[c as int], s as int);
                    assert(live@[c as int] == stirs_from(p, toks[c as int], s + 1)) by {
                        assert(live_before[c as int] == stirs_from(p, toks[c as int], s as int));
                        assert(base@[c as int] == run(p, 0, toks[c as int]));
                        if base@[c as int] != 0 {
                            let zero: int = 0;
                            assert(run(p, zero as nat, toks[c as int]) != 0);
                        }
                    }
                    assert forall|e: int|
                        0 <= e < c + 1 && #[trigger] is_exception(p, toks, s as int, e) implies exists|
                        i: int,
                    |
                        0 <= i < list@.len() && (#[trigger] list@[i]).0 == e by {
                        if e < c {
                            let i = choose|i: int|
                                0 <= i < before.len() && (#[trigger] before[i]).0 == e;
                            assert(list@[i].0 == e);
                        } else {
                            assert(list@[list@.len() - 1].0 == e);
                        }
                    }
                }
                c = c + 1;
            }
            exceptions.push(list);
            s = s + 1;
        }
        exceptions.push(Vec::new());

        // The stirring codes, and the longest of their tokens.
        let words: usize = if n == 0 {
            1
        } else {
            (n - 1) / 64 + 1
        };
        let mut set: Vec<u64> = vec![0u64; words];
        let mut lmax: usize = 0;
        let mut interesting: usize = 0;
        let mut c: usize = 0;
        proof {
            assert forall|i: int| 0 <= i < n implies !#[trigger] mask_bit(set@, i) by {
                crate::bits::lemma_mask_zero(set@, i);
            }
        }
        while c < n
            invariant
                c <= n,
                n == toks.len(),
                n <= MAX_TOKENS,
                toks == tokens_of(dict_bytes@, dict_offsets@),
                dict_ok(dict_bytes@, dict_offsets@),
                m == p.len(),
                live@.len() == n,
                forall|i: int| 0 <= i < n ==> #[trigger] live@[i] == stirs_from(p, toks[i], m as int),
                n <= 64 * words,
                set@.len() == words,
                forall|i: int|
                    0 <= i < n ==> #[trigger] mask_bit(set@, i) == (i < c && stirs(p, toks[i])),
                lmax == longest_stirring(p, toks, c as nat),
                lmax <= u32::MAX,
                interesting == stirring_count(p, toks, c as nat),
                interesting <= c,
            decreases n - c,
        {
            let token = token_at(dict_bytes, dict_offsets, c);
            if live[c] {
                set_bit(&mut set, c);
                proof {
                    lemma_token_len(dict_bytes@, dict_offsets@, c as int);
                }
                if token.len() > lmax {
                    lmax = token.len();
                }
                interesting = interesting + 1;
            }
            c = c + 1;
        }
        let combo: usize = combo_depth(m, lmax);
        proof {
            assert(set@.len() <= 1024);
            assert forall|i: int| 0 <= i < n implies #[trigger] mask_bit(set@, i) == stirs(
                p,
                toks[i],
            ) by {
                assert(live@[i] == stirs_from(p, toks[i], m as int));
            }
        }
        let filter = Filter::from_bitmap(set.as_slice(), n);
        let inner = Inner {
            base,
            exceptions,
            filter,
            combo,
            interesting,
            accept: m as u8,
            tokens: Ghost(toks),
            pattern: Ghost(p),
        };
        SparseSearcher { inner: Some(inner), tokens: Ghost(toks), pattern: Ghost(p) }
    }

    /// The rows whose decoded bytes contain the pattern: the rows that the
    /// combination prefilter leaves are walked.
    pub fn matching_rows<O: Offset>(&self, codes: &[Token], code_offsets: &[O]) -> (out: Vec<u64>)
        requires
            self.wf(),
            self.pattern().len() > 0 ==> codes_ok(codes@, self.tokens().len()),
            self.pattern().len() > 0 ==> rows_ok(
                bounds(code_offsets@),
                codes@.len() as int,
            ),
        ensures
            out@ == selected(
                row_count(bounds(code_offsets@)),
                row_contains(self.tokens(), codes@, bounds(code_offsets@), self.pattern()),
            ),
    {
        let ghost b = bounds(code_offsets@);
        match &self.inner {
            None => {
                proof {
                    lemma_empty_pattern(self.pattern@, self.tokens@, codes@, b);
                }
                all_rows(code_offsets)
            },
            Some(inner) => {
                let combined = inner.combined(codes);
                proof {
                    let p = self.pattern@;
                    let t = self.tokens@;
                    lemma_longest(p, t, t.len());
                    assert forall|r: int|
                        0 <= r < row_count(b) && #[trigger] row_contains(t, codes@, b, p)(
                            r,
                        ) implies windowed(combined@, b, inner.combo as int)(r) by {
                        lemma_row_windowed(
                            p,
                            t,
                            codes@,
                            b,
                            combined@,
                            inner.combo as int,
                            longest_stirring(p, t, t.len()) as int,
                            r,
                        );
                    }
                }
                let dense: bool = count_set_bits(&combined) > codes.len() / 8;
                rows_masked(inner, codes, code_offsets, &combined, inner.combo, dense)
            },
        }
    }

    /// [`matching_rows`](Self::matching_rows) without the prefilter: every row
    /// is walked.
    pub fn matching_rows_unfiltered<O: Offset>(&self, codes: &[Token], code_offsets: &[O]) -> (out: Vec<
        u64,
    >)
        requires
            self.wf(),
            self.pattern().len() > 0 ==> codes_ok(codes@, self.tokens().len()),
            self.pattern().len() > 0 ==> rows_ok(
                bounds(code_offsets@),
                codes@.len() as int,
            ),
        ensures
            out@ == selected(
                row_count(bounds(code_offsets@)),
                row_contains(self.tokens(), codes@, bounds(code_offsets@), self.pattern()),
            ),
    {
        match &self.inner {
            None => {
                proof {
                    lemma_empty_pattern(
                        self.pattern@,
                        self.tokens@,
                        codes@,
                        bounds(code_offsets@),
                    );
                }
                all_rows(code_offsets)
            },
            Some(inner) => rows_unfiltered(inner, codes, code_offsets),
        }
    }

    /// The rows that the combination prefilter leaves, a superset of the
    /// matching ones.
    pub fn candidate_rows<O: Offset>(&self, codes: &[Token], code_offsets: &[O]) -> (out: Vec<u64>)
        requires
            self.wf(),
            self.pattern().len() > 0 ==> codes_ok(codes@, self.tokens().len()),
            self.pattern().len() > 0 ==> rows_ok(
                bounds(code_offsets@),
                codes@.len() as int,
            ),
        ensures
            out@ == selected(
                row_count(bounds(code_offsets@)),
                self.candidates(codes@, bounds(code_offsets@)),
            ),
    {
        let ghost b = bounds(code_offsets@);
        match &self.inner {
            None => {
                let out = all_rows(code_offsets);
                proof {
                    crate::rows::lemma_selected_agree(
                        row_count(b),
                        every_row(),
                        self.candidates(codes@, b),
                    );
                }
                out
            },
            Some(inner) => {
                let combined = inner.combined(codes);
                let out = rows_windowed(&combined, code_offsets, inner.combo, codes.len());
                proof {
                    let cand = self.candidates(codes@, b);
                    let wind = windowed(combined@, b, inner.combo as int);
                    assert forall|r: int| 0 <= r < row_count(b) implies #[trigger] wind(r) == cand(
                        r,
                    ) by {
                        lemma_candidate_row(
                            self.pattern@,
                            self.tokens@,
                            codes@,
                            b,
                            combined@,
                            inner.combo as int,
                            r,
                        );
                    }
                    crate::rows::lemma_selected_agree(row_count(b), wind, cand);
                }
                out
            },
        }
    }

    /// Whether one row's codes contain the pattern.
    pub fn row_matches(&self, codes: &[Token]) -> (r: bool)
        requires
            self.wf(),
            self.pattern().len() > 0 ==> codes_ok(codes@, self.tokens().len()),
        ensures
            r == contains(decode(self.tokens(), codes@), self.pattern()),
    {
        match &self.inner {
            None => {
                proof {
                    lemma_contains_empty(decode(self.tokens@, codes@), self.pattern@);
                }
                true
            },
            Some(inner) => inner.walk(codes),
        }
    }

    /// Compile-time shape, or `None` for the empty pattern.
    pub fn info(&self) -> (r: Option<SparseInfo>)
        requires
            self.wf(),
        ensures
            r is None <==> self.pattern().len() == 0,
            r matches Some(i) ==> {
                let p = self.pattern();
                let t = self.tokens();
                &&& i.exceptions == exceptions_below(p, t, p.len())
                &&& i.transition_bytes == t.len() + 4 * i.exceptions
                &&& i.interesting == stirring_count(p, t, t.len())
                &&& i.combo == combo_of(p.len() as int, longest_stirring(p, t, t.len()) as int)
            },
    {
        match &self.inner {
            None => None,
            Some(inner) => {
                let ghost p = self.pattern@;
                let ghost t = self.tokens@;
                let m: usize = inner.accept as usize;
                let mut exceptions: usize = 0;
                let mut s: usize = 1;
                while s < m
                    invariant
                        1 <= s <= m,
                        m == p.len(),
                        m <= MAX_PATTERN_LEN,
                        inner.wf(),
                        p == inner.pattern@,
                        t == inner.tokens@,
                        exceptions == exceptions_below(p, t, s as nat),
                        exceptions <= s * MAX_TOKENS,
                    decreases m - s,
                {
                    assert(is_exception_list(
                        inner.exceptions@[s as int]@,
                        p,
                        t,
                        s as int,
                        t.len() as int,
                    ));
                    exceptions = exceptions + inner.exceptions[s].len();
                    s = s + 1;
                }
                Some(
                    SparseInfo {
                        transition_bytes: inner.base.len() + EXCEPTION_BYTES * exceptions,
                        exceptions,
                        interesting: inner.interesting,
                        combo: inner.combo,
                    },
                )
            },
        }
    }
}

/// Rows that hold as many consecutive stirring codes as a match needs, and
/// every row for the empty pattern.
pub open spec fn candidate_row(
    pattern: Seq<u8>,
    tokens: Seq<Seq<u8>>,
    codes: Seq<Token>,
    b: Seq<int>,
) -> spec_fn(int) -> bool {
    |r: int|
        pattern.len() == 0 || exists|i: int|
            b[r] <= i && i + combo_of(
                pattern.len() as int,
                longest_stirring(pattern, tokens, tokens.len()) as int,
            ) <= b[r + 1] && #[trigger] stirring_window(
                pattern,
                tokens,
                codes,
                combo_of(
                    pattern.len() as int,
                    longest_stirring(pattern, tokens, tokens.len()) as int,
                ),
                i,
            )
}

proof fn lemma_candidate_row(
    pattern: Seq<u8>,
    tokens: Seq<Seq<u8>>,
    codes: Seq<Token>,
    b: Seq<int>,
    mask: Seq<u64>,
    combo: int,
    r: int,
)
    requires
        pattern.len() > 0,
        rows_ok(b, codes.len() as int),
        mask.len() == words_for(codes.len() as int),
        combo == combo_of(
            pattern.len() as int,
            longest_stirring(pattern, tokens, tokens.len()) as int,
        ),
        combo >= 1,
        forall|i: int|
            0 <= i < 64 * mask.len() ==> #[trigger] mask_bit(mask, i) == (i + combo <= codes.len()
                && stirring_window(pattern, tokens, codes, combo, i)),
        0 <= r < row_count(b),
    ensures
        windowed(mask, b, combo)(r) == candidate_row(pattern, tokens, codes, b)(r),
{
    assert(b[r] <= b[r + 1]);
    assert(b[r + 1] <= codes.len());
    if windowed(mask, b, combo)(r) {
        let i = choose|i: int| b[r] <= i < b[r + 1] - combo + 1 && #[trigger] mask_bit(mask, i);
        assert(stirring_window(pattern, tokens, codes, combo, i));
    }
    if candidate_row(pattern, tokens, codes, b)(r) {
        let i = choose|i: int|
            b[r] <= i && i + combo <= b[r + 1] && #[trigger] stirring_window(
                pattern,
                tokens,
                codes,
                combo,
                i,
            );
        assert(mask_bit(mask, i));
    }
}

/// Every row contains the empty pattern.
pub proof fn lemma_empty_pattern(
    pattern: Seq<u8>,
    tokens: Seq<Seq<u8>>,
    codes: Seq<Token>,
    b: Seq<int>,
)
    requires
        pattern.len() == 0,
    ensures
        selected(row_count(b), row_contains(tokens, codes, b, pattern)) == selected(
            row_count(b),
            every_row(),
        ),
{
    let p = row_contains(tokens, codes, b, pattern);
    assert forall|r: int| 0 <= r < row_count(b) implies #[trigger] every_row()(r) == p(r) by {
        lemma_contains_empty(decode(tokens, row_codes(codes, b, r)), pattern);
    }
    crate::rows::lemma_selected_agree(row_count(b), every_row(), p);
}

/// Looking at one more state.
proof fn lemma_live_step(pattern: Seq<u8>, token: Seq<u8>, s: int)
    requires
        s >= 0,
    ensures
        stirs_from(pattern, token, s + 1) == (stirs_from(pattern, token, s) || run(
            pattern,
            s as nat,
            token,
        ) != 0),
{
    if stirs_from(pattern, token, s + 1) {
        let q = choose|q: int| 0 <= q < s + 1 && #[trigger] run(pattern, q as nat, token) != 0;
        if q < s {
            assert(stirs_from(pattern, token, s));
        }
    }
    if stirs_from(pattern, token, s) {
        let q = choose|q: int| 0 <= q < s && #[trigger] run(pattern, q as nat, token) != 0;
        assert(run(pattern, q as nat, token) != 0);
    }
}

/// A token's length fits the offsets that delimit it.
pub proof fn lemma_token_len(bytes: Seq<u8>, offsets: Seq<u32>, c: int)
    requires
        dict_ok(bytes, offsets),
        0 <= c,
        c + 1 < offsets.len(),
    ensures
        0 < tokens_of(bytes, offsets)[c].len() <= u32::MAX,
{
    assert(offsets[c] < offsets[c + 1]);
    if c + 1 < offsets.len() - 1 {
        assert(offsets[c + 1] < offsets[offsets.len() - 1]);
    }
}

impl SparseSearcher {
    /// The combination prefilter drops no row that contains the pattern.
    pub proof fn lemma_no_false_negatives(&self, codes: Seq<Token>, b: Seq<int>, r: int)
        requires
            self.wf(),
            codes_ok(codes, self.tokens().len()),
            rows_ok(b, codes.len() as int),
            0 <= r < row_count(b),
            row_contains(self.tokens(), codes, b, self.pattern())(r),
        ensures
            self.candidates(codes, b)(r),
    {
        let pattern = self.pattern();
        let tokens = self.tokens();
        if pattern.len() > 0 {
            let lmax = longest_stirring(pattern, tokens, tokens.len()) as int;
            let combo = combo_of(pattern.len() as int, lmax);
            let row = row_codes(codes, b, r);
            lemma_combo_is_least(pattern.len() as int, lmax);
            lemma_longest(pattern, tokens, tokens.len());
            lemma_row_codes_ok(codes, b, r, tokens.len());
            lemma_match_needs_window(pattern, tokens, row, combo, lmax);
            let i = choose|i: int|
                0 <= i <= row.len() - combo && #[trigger] stirring_window(
                    pattern,
                    tokens,
                    row,
                    combo,
                    i,
                );
            let at = b[r] + i;
            assert(b[r] <= b[r + 1]);
            assert(b[r + 1] <= codes.len());
            assert(stirring_window(pattern, tokens, codes, combo, at)) by {
                assert forall|k: int| at <= k < at + combo implies stirs(
                    pattern,
                    tokens[#[trigger] codes[k] as int],
                ) by {
                    assert(row[k - b[r]] == codes[k]);
                    assert(stirs(pattern, tokens[row[k - b[r]] as int]));
                }
            }
        }
    }

    /// A row is left just when it holds, wherever in it, as many consecutive
    /// stirring codes as the shortest run of the longest stirring tokens that
    /// reaches the pattern's length has, three at the most.
    pub proof fn lemma_window_anywhere_is_left(
        &self,
        codes: Seq<Token>,
        b: Seq<int>,
        r: int,
        lmax: int,
        combo: int,
    )
        requires
            self.pattern().len() > 0,
            lmax >= 0,
            forall|c: int|
                0 <= c < self.tokens().len() && #[trigger] stirs(self.pattern(), self.tokens()[c])
                    ==> self.tokens()[c].len() <= lmax,
            lmax > 0 ==> exists|c: int|
                0 <= c < self.tokens().len() && #[trigger] stirs(self.pattern(), self.tokens()[c])
                    && self.tokens()[c].len() == lmax,
            1 <= combo <= 3,
            lmax == 0 ==> combo == 1,
            (combo - 1) * lmax < self.pattern().len(),
            lmax > 0 && combo < 3 ==> combo * lmax >= self.pattern().len(),
        ensures
            forall|i: int|
                b[r] <= i && i + combo <= b[r + 1] && stirs(
                    self.pattern(),
                    self.tokens()[#[trigger] codes[i] as int],
                ) && (forall|k: int|
                    i <= k < i + combo ==> stirs(
                        self.pattern(),
                        self.tokens()[#[trigger] codes[k] as int],
                    )) ==> self.candidates(codes, b)(r),
            self.candidates(codes, b)(r) ==> exists|i: int|
                b[r] <= i && i + combo <= b[r + 1] && stirs(
                    self.pattern(),
                    self.tokens()[#[trigger] codes[i] as int],
                ) && forall|k: int|
                    i <= k < i + combo ==> stirs(
                        self.pattern(),
                        self.tokens()[#[trigger] codes[k] as int],
                    ),
    {
        let pattern = self.pattern();
        let tokens = self.tokens();
        let m = pattern.len() as int;
        let l = longest_stirring(pattern, tokens, tokens.len()) as int;
        lemma_longest_is_greatest(pattern, tokens, tokens.len());
        lemma_combo_is_least(m, l);
        let c = combo_of(m, l);
        assert(l == lmax);
        assert(c == combo) by {
            if lmax > 0 {
                if c < combo {
                    assert(c * lmax <= (combo - 1) * lmax) by (nonlinear_arith)
                        requires
                            c <= combo - 1,
                            lmax >= 0,
                    ;
                }
                if combo < c {
                    assert(combo * lmax <= (c - 1) * lmax) by (nonlinear_arith)
                        requires
                            combo <= c - 1,
                            lmax >= 0,
                    ;
                }
            }
        }
        assert forall|i: int|
            b[r] <= i && i + combo <= b[r + 1] && stirs(
                pattern,
                tokens[#[trigger] codes[i] as int],
            ) && (forall|k: int|
                i <= k < i + combo ==> stirs(
                    pattern,
                    tokens[#[trigger] codes[k] as int],
                )) implies self.candidates(codes, b)(r) by {
            assert(stirring_window(pattern, tokens, codes, combo, i));
        }
        if self.candidates(codes, b)(r) {
            let i = choose|i: int|
                b[r] <= i && i + combo <= b[r + 1] && #[trigger] stirring_window(
                    pattern,
                    tokens,
                    codes,
                    combo,
                    i,
                );
            assert(stirs(pattern, tokens[codes[i] as int]));
        }
    }
}

/// The exceptions of a state are the tokens that lead it elsewhere than they
/// lead state 0, and those of all states between the first and the full match
/// are counted together.
pub proof fn lemma_exceptions_counted(pattern: Seq<u8>, tokens: Seq<Seq<u8>>, s: int, k: nat)
    requires
        s >= 1,
    ensures
        exceptions_at(pattern, tokens, s, k) == set_int_range(0, k as int).filter(
            |c: int| run(pattern, s as nat, tokens[c]) != run(pattern, 0, tokens[c]),
        ).len(),
        exceptions_below(pattern, tokens, 1) == 0,
        exceptions_below(pattern, tokens, (s + 1) as nat) == exceptions_below(
            pattern,
            tokens,
            s as nat,
        ) + exceptions_at(pattern, tokens, s, tokens.len()),
    decreases k,
{
    let f = |c: int| run(pattern, s as nat, tokens[c]) != run(pattern, 0, tokens[c]);
    if k == 0 {
        lemma_count_none(f);
    } else {
        lemma_exceptions_counted(pattern, tokens, s, (k - 1) as nat);
        lemma_count_next(k - 1, f);
    }
}

} // verus!
