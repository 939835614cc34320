//! Substring automaton lifted from bytes to dictionary codes.
//!
//! The matching automaton over the pattern's bytes is precomputed. Its
//! composition with each dictionary token, the `(state, code)` table a scan
//! reads, is filled on first touch: a scan pays one short token walk per
//! distinct pair that it reaches. A match that straddles token boundaries is
//! found because the state carries the partial match across codes.

use crate::dictionary::{
    codes_ok, decode, dict_ok, lemma_decode_concat, lemma_decode_take, token_at, token_count,
    tokens_of,
};
use crate::text::{
    border, contains, lemma_fail_row, lemma_overlap, lemma_overlap_step, lemma_row_zero,
    lemma_run_absorbing, lemma_run_bound, lemma_run_concat, lemma_run_is_state, lemma_run_take,
    lemma_state_bound, run, step,
};
use crate::types::Token;
use vstd::prelude::*;

verus! {

/// Largest supported pattern length: states are bytes, one per matched prefix
/// length plus the empty prefix, and `0xFF` marks an entry not yet composed.
pub const MAX_PATTERN_LEN: usize = 254;

/// A composed entry that no scan has touched yet.
pub const UNFILLED: u8 = 255;

/// `delta` holds the transitions of the matching automaton of `pattern`, state
/// by state.
pub open spec fn is_automaton(delta: Seq<u8>, pattern: Seq<u8>) -> bool {
    &&& delta.len() == (pattern.len() + 1) * 256
    &&& forall|s: int, b: int|
        0 <= s <= pattern.len() && 0 <= b < 256 ==> #[trigger] delta[s * 256 + b] == step(
            pattern,
            s as nat,
            b as u8,
        )
}

/// The matching automaton over the pattern's bytes, state by state:
/// `delta[s * 256 + b]` is the length of the longest pattern prefix that is a
/// suffix of the matched prefix of length `s` followed by `b`. The full match
/// is absorbing.
pub fn byte_automaton(pattern: &[u8]) -> (delta: Vec<u8>)
    requires
        1 <= pattern@.len() <= MAX_PATTERN_LEN,
    ensures
        is_automaton(delta@, pattern@),
{
    let m: usize = pattern.len();
    let ghost p = pattern@;
    let mut delta: Vec<u8> = vec![0u8; (m + 1) * 256];
    delta.set(pattern[0] as usize, 1);
    let mut fail: usize = 0;
    let mut s: usize = 1;
    proof {
        assert forall|b: int| 0 <= b < 256 implies #[trigger] delta@[0 * 256 + b] == step(
            p,
            0,
            b as u8,
        ) by {
            lemma_row_zero(p, b as u8);
        }
        lemma_overlap(p, p.subrange(1, 1));
    }
    while s < m
        invariant
            1 <= s <= m,
            m == p.len(),
            p == pattern@,
            m <= MAX_PATTERN_LEN,
            delta@.len() == (m + 1) * 256,
            fail == border(p, s as int),
            fail < s,
            forall|t: int, b: int|
                0 <= t < s && 0 <= b < 256 ==> #[trigger] delta@[t * 256 + b] == step(
                    p,
                    t as nat,
                    b as u8,
                ),
        decreases m - s,
    {
        let mut b: usize = 0;
        let ghost before = delta@;
        while b < 256
            invariant
                1 <= s < m,
                m == p.len(),
                p == pattern@,
                m <= MAX_PATTERN_LEN,
                b <= 256,
                fail < s,
                fail == border(p, s as int),
                delta@.len() == (m + 1) * 256,
                before.len() == delta@.len(),
                forall|i: int| 0 <= i < s * 256 ==> #[trigger] delta@[i] == before[i],
                forall|t: int, c: int|
                    0 <= t < s && 0 <= c < 256 ==> #[trigger] before[t * 256 + c] == step(
                        p,
                        t as nat,
                        c as u8,
                    ),
                forall|c: int|
                    0 <= c < b ==> #[trigger] delta@[s * 256 + c] == step(p, s as nat, c as u8),
            decreases 256 - b,
        {
            proof {
                lemma_fail_row(p, s as int, b as u8);
                assert(before[fail * 256 + b] == step(p, fail as nat, b as u8));
            }
            let next: u8 = if b == pattern[s] as usize {
                (s + 1) as u8
            } else {
                delta[fail * 256 + b]
            };
            delta.set(s * 256 + b, next);
            b = b + 1;
        }
        proof {
            assert forall|t: int, c: int| 0 <= t < s + 1 && 0 <= c < 256 implies #[trigger] delta@[t
                * 256 + c] == step(p, t as nat, c as u8) by {
                if t < s {
                    assert(before[t * 256 + c] == step(p, t as nat, c as u8));
                }
            }
            lemma_overlap_step(p, p.subrange(1, s as int), p[s as int]);
            assert(p.subrange(1, s as int).push(p[s as int]) =~= p.subrange(1, s + 1));
            assert(delta@[fail * 256 + p[s as int] as int] == step(
                p,
                fail as nat,
                p[s as int],
            ));
            lemma_overlap(p, p.subrange(1, s + 1));
        }
        fail = delta[fail * 256 + pattern[s] as usize] as usize;
        s = s + 1;
    }
    let mut b: usize = 0;
    let ghost before = delta@;
    while b < 256
        invariant
            b <= 256,
            m == p.len(),
            1 <= m <= MAX_PATTERN_LEN,
            delta@.len() == (m + 1) * 256,
            forall|i: int| 0 <= i < m * 256 ==> #[trigger] delta@[i] == before[i],
            forall|c: int| 0 <= c < b ==> #[trigger] delta@[m * 256 + c] == m,
        decreases 256 - b,
    {
        delta.set(m * 256 + b, m as u8);
        b = b + 1;
    }
    proof {
        assert forall|t: int, c: int| 0 <= t <= m && 0 <= c < 256 implies #[trigger] delta@[t * 256
            + c] == step(p, t as nat, c as u8) by {
            if t < m {
                assert(before[t * 256 + c] == step(p, t as nat, c as u8));
            }
        }
    }
    delta
}

/// Feeds one token through the byte automaton from state `s`, stopping at the
/// full match.
pub fn walk_token(delta: &Vec<u8>, m: usize, s: usize, token: &[u8], Ghost(pattern): Ghost<Seq<u8>>) -> (r: u8)
    requires
        is_automaton(delta@, pattern),
        m == pattern.len(),
        m <= MAX_PATTERN_LEN,
        s <= m,
    ensures
        r == run(pattern, s as nat, token@),
        r <= m,
{
    let mut st: usize = s;
    let mut i: usize = 0;
    let ghost t = token@;
    proof {
        assert(t.take(0) =~= Seq::<u8>::empty());
    }
    while i < token.len()
        invariant
            i <= t.len(),
            t == token@,
            is_automaton(delta@, pattern),
            m == pattern.len(),
            m <= MAX_PATTERN_LEN,
            s <= m,
            st <= m,
            st == run(pattern, s as nat, t.take(i as int)),
        decreases t.len() - i,
    {
        proof {
            lemma_run_take(pattern, s as nat, t, i as int);
            lemma_run_bound(pattern, s as nat, t.take(i + 1));
            assert(delta@[st * 256 + t[i as int] as int] == step(pattern, st as nat, t[i as int]));
        }
        st = delta[st * 256 + token[i] as usize] as usize;
        i = i + 1;
        if st == m {
            proof {
                lemma_run_absorbing(pattern, t.skip(i as int));
                lemma_run_concat(pattern, s as nat, t.take(i as int), t.skip(i as int));
                assert(t.take(i as int) + t.skip(i as int) =~= t);
            }
            return st as u8;
        }
    }
    assert(t.take(i as int) =~= t);
    st as u8
}

/// One code more moves the state of a row by that code's token.
pub proof fn lemma_row_step(pattern: Seq<u8>, tokens: Seq<Seq<u8>>, codes: Seq<Token>, i: int)
    requires
        0 <= i < codes.len(),
    ensures
        run(pattern, 0, decode(tokens, codes.take(i + 1))) == run(
            pattern,
            run(pattern, 0, decode(tokens, codes.take(i))),
            tokens[codes[i] as int],
        ),
{
    lemma_decode_take(tokens, codes, i);
    lemma_run_concat(
        pattern,
        0,
        decode(tokens, codes.take(i)),
        tokens[codes[i] as int],
    );
}

/// No code has been read: the state is 0.
pub proof fn lemma_row_start(pattern: Seq<u8>, tokens: Seq<Seq<u8>>, codes: Seq<Token>)
    ensures
        run(pattern, 0, decode(tokens, codes.take(0))) == 0,
{
    assert(codes.take(0) =~= Seq::<Token>::empty());
}

/// A row contains the pattern as soon as a prefix of it does.
pub proof fn lemma_row_accepts(pattern: Seq<u8>, tokens: Seq<Seq<u8>>, codes: Seq<Token>, i: int)
    requires
        pattern.len() > 0,
        0 <= i <= codes.len(),
        run(pattern, 0, decode(tokens, codes.take(i))) == pattern.len(),
    ensures
        contains(decode(tokens, codes), pattern),
{
    let a = codes.take(i);
    let b = codes.skip(i);
    assert(a + b =~= codes);
    lemma_decode_concat(tokens, a, b);
    lemma_run_concat(pattern, 0, decode(tokens, a), decode(tokens, b));
    lemma_run_absorbing(pattern, decode(tokens, b));
    lemma_run_is_state(pattern, decode(tokens, codes));
    lemma_state_bound(pattern, decode(tokens, codes));
}

/// A row contains the pattern exactly when its last state is the full match.
pub proof fn lemma_row_decides(pattern: Seq<u8>, tokens: Seq<Seq<u8>>, codes: Seq<Token>)
    requires
        pattern.len() > 0,
    ensures
        run(pattern, 0, decode(tokens, codes)) <= pattern.len(),
        contains(decode(tokens, codes), pattern) <==> run(pattern, 0, decode(tokens, codes))
            == pattern.len(),
{
    lemma_run_is_state(pattern, decode(tokens, codes));
    lemma_state_bound(pattern, decode(tokens, codes));
}

/// Matching automaton over dictionary codes. State `s` means that the longest
/// pattern prefix ending the bytes read so far has length `s`; the full match
/// is absorbing.
pub struct TokenDfa {
    delta: Vec<u8>,
    dict_bytes: Vec<u8>,
    dict_offsets: Vec<u32>,
    ntokens: usize,
    accept: u8,
    pattern: Ghost<Seq<u8>>,
}

/// The composed transitions that one scan has touched, state by state:
/// `table[s * ntokens + c]`, [`UNFILLED`] where nothing was composed yet.
pub struct TransitionTable {
    table: Vec<u8>,
}

impl TransitionTable {
    /// Every touched entry is the composition it stands for.
    pub closed spec fn agrees(&self, dfa: &TokenDfa) -> bool {
        &&& self.table@.len() == (dfa.pattern().len() + 1) * dfa.tokens().len()
        &&& forall|s: int, c: int|
            0 <= s <= dfa.pattern().len() && 0 <= c < dfa.tokens().len() ==> {
                let e = #[trigger] self.table@[s * dfa.tokens().len() + c];
                e != UNFILLED ==> e == run(dfa.pattern(), s as nat, dfa.tokens()[c])
            }
    }
}

impl TokenDfa {
    /// The pattern that the automaton looks for.
    pub closed spec fn pattern(&self) -> Seq<u8> {
        self.pattern@
    }

    /// The tokens of the dictionary that it was built over.
    pub closed spec fn tokens(&self) -> Seq<Seq<u8>> {
        tokens_of(self.dict_bytes@, self.dict_offsets@)
    }

    /// The automaton is that of its pattern and dictionary.
    pub closed spec fn wf(&self) -> bool {
        &&& 1 <= self.pattern@.len() <= MAX_PATTERN_LEN
        &&& is_automaton(self.delta@, self.pattern@)
        &&& dict_ok(self.dict_bytes@, self.dict_offsets@)
        &&& self.accept == self.pattern@.len()
        &&& self.ntokens == self.tokens().len()
    }

    /// Builds the automaton of `pattern` over a dictionary.
    pub fn build(pattern: &[u8], dict_bytes: &[u8], dict_offsets: &[u32]) -> (dfa: TokenDfa)
        requires
            1 <= pattern@.len() <= MAX_PATTERN_LEN,
            dict_ok(dict_bytes@, dict_offsets@),
        ensures
            dfa.wf(),
            dfa.pattern() == pattern@,
            dfa.tokens() == tokens_of(dict_bytes@, dict_offsets@),
    {
        let delta = byte_automaton(pattern);
        let ntokens = token_count(dict_offsets);
        TokenDfa {
            delta,
            dict_bytes: vstd::slice::slice_to_vec(dict_bytes),
            dict_offsets: vstd::slice::slice_to_vec(dict_offsets),
            ntokens,
            accept: pattern.len() as u8,
            pattern: Ghost(pattern@),
        }
    }

    /// Composes the byte automaton over token `c` from state `s`.
    pub fn compose(&self, s: usize, c: usize) -> (r: u8)
        requires
            self.wf(),
            s <= self.pattern().len(),
            c < self.tokens().len(),
        ensures
            r == run(self.pattern(), s as nat, self.tokens()[c as int]),
            r <= self.pattern().len(),
            r != UNFILLED,
    {
        let token = token_at(self.dict_bytes.as_slice(), self.dict_offsets.as_slice(), c);
        walk_token(
            &self.delta,
            self.accept as usize,
            s,
            token,
            Ghost(self.pattern@),
        )
    }

    /// An untouched transition table for one scan.
    pub fn transitions(&self) -> (t: TransitionTable)
        requires
            self.wf(),
        ensures
            t.agrees(self),
    {
        let m: usize = self.accept as usize;
        proof {
            lemma_index_bound(self.ntokens as int, m as int + 1);
        }
        let t = TransitionTable { table: vec![UNFILLED; (m + 1) * self.ntokens] };
        proof {
            assert forall|s: int, c: int|
                0 <= s <= self.pattern().len() && 0 <= c < self.tokens().len() implies ({
                let e = #[trigger] t.table@[s * self.tokens().len() + c];
                e != UNFILLED ==> e == run(self.pattern(), s as nat, self.tokens()[c])
            }) by {
                lemma_index_step(s, self.ntokens as int, c, m as int + 1);
            }
        }
        t
    }

    /// Runs the automaton over one row's codes, composing each transition
    /// that the row takes. Whether the row contains the pattern.
    pub fn row_matches(&self, codes: &[Token]) -> (r: bool)
        requires
            self.wf(),
            codes_ok(codes@, self.tokens().len()),
        ensures
            r == contains(decode(self.tokens(), codes@), self.pattern()),
    {
        let accept: usize = self.accept as usize;
        let ghost p = self.pattern@;
        let ghost toks = self.tokens();
        let ghost cs = codes@;
        let mut s: usize = 0;
        let mut i: usize = 0;
        proof {
            lemma_row_start(p, toks, cs);
        }
        while i < codes.len()
            invariant
                i <= cs.len(),
                cs == codes@,
                p == self.pattern@,
                toks == self.tokens(),
                accept == p.len(),
                self.wf(),
                codes_ok(cs, toks.len()),
                s < accept,
                s == run(p, 0, decode(toks, cs.take(i as int))),
            decreases cs.len() - i,
        {
            proof {
                assert(cs[i as int] < toks.len());
                lemma_row_step(p, toks, cs, i as int);
            }
            s = self.compose(s, codes[i] as usize) as usize;
            i = i + 1;
            if s == accept {
                proof {
                    lemma_row_accepts(p, toks, cs, i as int);
                }
                return true;
            }
        }
        proof {
            assert(cs.take(i as int) =~= cs);
            lemma_row_decides(p, toks, cs);
        }
        false
    }

    /// [`row_matches`](Self::row_matches) over a transition table shared by
    /// the rows of a scan: a transition is composed on first touch and read
    /// from the table after that.
    pub fn row_matches_with(&self, codes: &[Token], table: &mut TransitionTable) -> (r: bool)
        requires
            self.wf(),
            codes_ok(codes@, self.tokens().len()),
            old(table).agrees(self),
        ensures
            r == contains(decode(self.tokens(), codes@), self.pattern()),
            final(table).agrees(self),
    {
        let accept: usize = self.accept as usize;
        let n: usize = self.ntokens;
        let ghost p = self.pattern@;
        let ghost toks = self.tokens();
        let ghost cs = codes@;
        let mut s: usize = 0;
        let mut i: usize = 0;
        proof {
            lemma_row_start(p, toks, cs);
        }
        while i < codes.len()
            invariant
                i <= cs.len(),
                cs == codes@,
                p == self.pattern@,
                toks == self.tokens(),
                n == toks.len(),
                accept == p.len(),
                self.wf(),
                codes_ok(cs, toks.len()),
                table.agrees(self),
                s < accept,
                s == run(p, 0, decode(toks, cs.take(i as int))),
            decreases cs.len() - i,
        {
            let c: usize = codes[i] as usize;
            proof {
                assert(cs[i as int] < n);
                lemma_index_step(s as int, n as int, c as int, accept as int + 1);
                lemma_index_bound(n as int, accept as int + 1);
                assert(0 <= s * n) by (nonlinear_arith)
                    requires
                        0 <= s,
                        0 <= n,
                ;
                lemma_row_step(p, toks, cs, i as int);
            }
            let at: usize = s * n + c;
            let mut t: u8 = table.table[at];
            if t == UNFILLED {
                t = self.compose(s, c);
                let ghost before = table.table@;
                table.table.set(at, t);
                proof {
                    assert forall|s2: int, c2: int| 0 <= s2 <= p.len() && 0 <= c2 < n implies ({
                        let e = #[trigger] table.table@[s2 * n + c2];
                        e != UNFILLED ==> e == run(p, s2 as nat, toks[c2])
                    }) by {
                        lemma_index_step(s2, n as int, c2, accept as int + 1);
                        if s2 * n + c2 == at {
                            lemma_index_unique(s as int, c as int, s2, c2, n as int);
                        } else {
                            assert(table.table@[s2 * n + c2] == before[s2 * n + c2]);
                        }
                    }
                }
            } else {
                assert(t == run(p, s as nat, toks[c as int]));
            }
            s = t as usize;
            i = i + 1;
            if s == accept {
                proof {
                    lemma_row_accepts(p, toks, cs, i as int);
                }
                return true;
            }
            proof {
                lemma_run_bound(p, 0, decode(toks, cs.take(i as int)));
            }
        }
        proof {
            assert(cs.take(i as int) =~= cs);
            lemma_row_decides(p, toks, cs);
        }
        false
    }
}

/// A table of `rows` rows of at most `2^16` entries is indexable.
proof fn lemma_index_bound(n: int, rows: int)
    requires
        0 <= n <= 65536,
        0 <= rows <= 256,
    ensures
        0 <= rows * n <= 16777216,
{
    assert(0 <= rows * n <= 16777216) by (nonlinear_arith)
        requires
            0 <= n <= 65536,
            0 <= rows <= 256,
    ;
}

/// A cell's index lies in its table.
pub proof fn lemma_index_step(s: int, n: int, c: int, rows: int)
    requires
        0 <= s < rows,
        0 <= c < n,
    ensures
        0 <= s * n + c < rows * n,
{
    assert(0 <= s * n + c < rows * n) by (nonlinear_arith)
        requires
            0 <= s < rows,
            0 <= c < n,
    ;
}

/// A cell's index names its row and column.
pub proof fn lemma_index_unique(s: int, c: int, s2: int, c2: int, n: int)
    requires
        0 <= c < n,
        0 <= c2 < n,
        s * n + c == s2 * n + c2,
    ensures
        s == s2,
        c == c2,
{
    assert(s == s2) by (nonlinear_arith)
        requires
            0 <= c < n,
            0 <= c2 < n,
            s * n + c == s2 * n + c2,
    ;
}

/// The automaton has a byte for each state, the full match included, and each
/// of 256 bytes: the state that reading that byte leads to, the full match to
/// itself. Patterns have up to 254 bytes.
pub proof fn lemma_automaton_reads(delta: Seq<u8>, pattern: Seq<u8>, s: int, b: u8)
    requires
        is_automaton(delta, pattern),
        0 <= s <= pattern.len(),
    ensures
        MAX_PATTERN_LEN == 254,
        delta.len() == 256 * (pattern.len() + 1),
        s < pattern.len() ==> delta[s * 256 + b] == run(pattern, s as nat, seq![b]),
        s == pattern.len() ==> delta[s * 256 + b] == pattern.len(),
{
    crate::text::lemma_run_one(pattern, s as nat, b);
    let byte = b as int;
    assert(delta[s * 256 + byte] == step(pattern, s as nat, byte as u8));
}

} // verus!
