//! The alignment graph: every way the pattern can lie across token
//! boundaries, as one graph.

use crate::bits::{
    bit, lemma_and, lemma_clear_lowest, lemma_low_ones, lemma_lowest, lemma_set, lemma_zero,
};
use crate::dictionary::{dict_ok, tokens_of, DictView};
use crate::order::{complete, has_prefix, sized, sorted};
use crate::search::index::frequency::{layout_ok, range_sum, TokenFrequencyIndexView};
use crate::search::prefilter::cover::mark_range;
use crate::search::lookup::{is_longest, is_prefix_range, longest_token, no_token, prefix_range};
use crate::search::tokenize::lemma_some_token;
use crate::text::{contains, ends_with, occurs_at, starts_with};
use crate::types::{Token, TokenRange, MAX_TOKENS, MAX_TOKEN_SIZE};
use vstd::prelude::*;

verus! {

/// Largest first-token set still cheap enough to enumerate as an explicit
/// probe. A wider one is not built, so the alignment is entered for free and
/// the cut has to pay for it further along the chain.
pub const SET_CAP: usize = 16;

/// The token set that an edge probes for.
#[derive(Clone, Copy, Debug)]
pub enum ProbeSet {
    /// Would have been a set, but more than `SET_CAP` tokens qualified: no cut
    /// may select the step.
    TooBigSet,
    /// A single token: an interior token of the greedy parse.
    Point(Token),
    /// Every token that a needle suffix is a prefix of.
    Range(TokenRange),
    /// A first-token set, as `first_set_ids[start..start + len]`.
    FirstSet { start: u32, len: u32 },
}

/// One parse step, and the probe that catches every layout crossing it.
#[derive(Clone, Copy, Debug)]
pub struct Edge {
    pub from: u32,
    pub to: u32,
    /// The token set a scan looks for to catch this step.
    pub probe: ProbeSet,
    /// Term frequency of `probe`; zero when it carries none.
    pub weight: u32,
}

impl Edge {
    /// Whether a cut may select the edge.
    pub open spec fn cuttable(self) -> bool {
        !(self.probe is TooBigSet)
    }

    /// What cutting this edge costs, or `None` if no cut may select it.
    pub fn cost(&self) -> (r: Option<u32>)
        ensures
            r == if self.cuttable() {
                Some(self.weight)
            } else {
                None
            },
    {
        match self.probe {
            ProbeSet::TooBigSet => None,
            _ => Some(self.weight),
        }
    }
}

/// The node numbering, which the needle's length fixes: ids are needle offsets.
#[derive(Clone, Copy, Debug)]
pub struct Nodes {
    pub needle_len: usize,
}

impl Nodes {
    pub fn new(needle_len: usize) -> (r: Nodes)
        ensures
            r.needle_len == needle_len,
    {
        Nodes { needle_len }
    }

    /// One node for every offset, the needle's end included.
    pub open spec fn total(self) -> int {
        self.needle_len + 1
    }

    pub fn count(self) -> (r: usize)
        requires
            self.needle_len < usize::MAX,
        ensures
            r == self.total(),
    {
        self.needle_len + 1
    }

    /// Where every layout begins: no needle byte consumed yet.
    pub fn source(self) -> (r: u32)
        ensures
            r == 0,
    {
        0
    }

    /// Where every layout ends: every needle byte consumed.
    pub fn sink(self) -> (r: u32)
        requires
            self.needle_len <= u32::MAX,
        ensures
            r == self.needle_len,
    {
        self.needle_len as u32
    }
}

/// The ids are those of the tokens that contain `needle`, ascending.
pub open spec fn are_containing(ids: Seq<Token>, tokens: Seq<Seq<u8>>, needle: Seq<u8>) -> bool {
    &&& forall|i: int, j: int| 0 <= i < j < ids.len() ==> ids[i] < ids[j]
    &&& forall|t: Token| #[trigger]
        ids.contains(t) <==> t < tokens.len() && contains(tokens[t as int], needle)
}

/// The leftmost place where `needle` occurs in `haystack`.
///
/// Calls `memchr::memmem::Finder::find` on a finder for `needle`: it returns
/// the index of the first occurrence, and `None` where there is none.
#[verifier::external_body]
fn find_first(haystack: &[u8], needle: &[u8]) -> (r: Option<usize>)
    ensures
        r matches Some(x) ==> occurs_at(haystack@, needle@, x as int) && forall|y: int|
            0 <= y < x ==> !occurs_at(haystack@, needle@, y),
        r is None ==> forall|y: int| !occurs_at(haystack@, needle@, y),
{
    memchr::memmem::Finder::new(needle).find(haystack)
}

/// Every token whose bytes contain the whole needle, and so matches it on its
/// own. There is none once the needle outgrows a token.
pub fn contained_tokens(dict: DictView<'_>, needle: &[u8]) -> (out: Vec<Token>)
    requires
        dict.wf(),
        sized(dict.tokens()),
        needle@.len() > 0,
    ensures
        are_containing(out@, dict.tokens(), needle@),
{
    let mut out: Vec<Token> = Vec::new();
    if needle.len() > MAX_TOKEN_SIZE {
        proof {
            assert forall|t: Token| #[trigger] out@.contains(t) <==> t < dict.tokens().len()
                && contains(dict.tokens()[t as int], needle@) by {
                if t < dict.tokens().len() {
                    assert(dict.tokens()[t as int].len() <= MAX_TOKEN_SIZE);
                }
            }
        }
        return out;
    }
    let (payload, offsets) = dict.token_payload();
    contained_by_search(payload, offsets, needle, &mut out);
    out
}

/// The needle occurs at `x` of the payload, inside token `t`.
spec fn inside(bytes: Seq<u8>, offsets: Seq<u32>, needle: Seq<u8>, t: int, x: int) -> bool {
    &&& 0 <= t < offsets.len() - 1
    &&& offsets[t] <= x
    &&& x + needle.len() <= offsets[t + 1]
    &&& occurs_at(bytes, needle, x)
}

proof fn lemma_inside(bytes: Seq<u8>, offsets: Seq<u32>, needle: Seq<u8>, t: int)
    requires
        dict_ok(bytes, offsets),
        0 <= t < offsets.len() - 1,
    ensures
        contains(tokens_of(bytes, offsets)[t], needle) <==> exists|x: int|
            inside(bytes, offsets, needle, t, x),
{
    let token = tokens_of(bytes, offsets)[t];
    let base = offsets[t] as int;
    assert(offsets[t] < offsets[t + 1]);
    if t + 1 < offsets.len() - 1 {
        assert(offsets[t + 1] < offsets[offsets.len() - 1]);
    }
    if contains(token, needle) {
        let p = choose|p: int| occurs_at(token, needle, p);
        assert(bytes.subrange(base + p, base + p + needle.len()) =~= token.subrange(
            p,
            p + needle.len(),
        ));
        assert(inside(bytes, offsets, needle, t, base + p));
    }
    if exists|x: int| inside(bytes, offsets, needle, t, x) {
        let x = choose|x: int| inside(bytes, offsets, needle, t, x);
        assert(bytes.subrange(x, x + needle.len()) =~= token.subrange(
            x - base,
            x - base + needle.len(),
        ));
        assert(occurs_at(token, needle, x - base));
    }
}

/// One sweep of the whole token payload, attributing each match to the token
/// that holds it.
///
/// After an accepted match nothing before its end remains to be found: its
/// token is recorded, and the next token begins there or later. A match that
/// was rejected for spanning two tokens resumes at the boundary that it
/// crossed, the earliest place where a match can still lie inside one token.
fn contained_by_search(payload: &[u8], offsets: &[u32], needle: &[u8], out: &mut Vec<Token>)
    requires
        dict_ok(payload@, offsets@),
        needle@.len() > 0,
        old(out)@.len() == 0,
    ensures
        are_containing(final(out)@, tokens_of(payload@, offsets@), needle@),
{
    let ghost bytes = payload@;
    let ghost offs = offsets@;
    let ghost p = needle@;
    let ghost toks = tokens_of(bytes, offs);
    let n: usize = needle.len();
    let count: usize = offsets.len();
    if count < 2 {
        return;
    }
    let limit: usize = offsets[count - 1] as usize;
    let mut from: usize = offsets[0] as usize;
    let mut id: usize = 0;
    assert(offs[0] < offs[count - 1]);
    loop
        invariant
            dict_ok(bytes, offs),
            bytes == payload@,
            offs == offsets@,
            p == needle@,
            n == p.len(),
            n > 0,
            toks == tokens_of(bytes, offs),
            count == offs.len(),
            2 <= count <= MAX_TOKENS + 1,
            limit == offs[count - 1],
            from <= limit <= bytes.len(),
            id < count - 1,
            offs[id as int] <= from,
            forall|k: int| 0 <= k < out@.len() ==> #[trigger] out@[k] <= id,
            forall|i: int, j: int| 0 <= i < j < out@.len() ==> out@[i] < out@[j],
            forall|t: Token| #[trigger]
                out@.contains(t) ==> t < toks.len() && contains(toks[t as int], p),
            forall|t: int, x: int| #[trigger]
                inside(bytes, offs, p, t, x) ==> x >= from || out@.contains(t as Token),
        decreases limit - from,
    {
        let rest = &payload[from..limit];
        let found = find_first(rest, needle);
        match found {
            None => {
                proof {
                    assert forall|t: Token| #[trigger] out@.contains(t) <==> t < toks.len()
                        && contains(toks[t as int], p) by {
                        if t < toks.len() && contains(toks[t as int], p) {
                            lemma_inside(bytes, offs, p, t as int);
                            let x = choose|x: int| inside(bytes, offs, p, t as int, x);
                            if x >= from {
                                if t + 1 < count - 1 {
                                    assert(offs[t + 1] < offs[count - 1]);
                                }
                                assert(rest@.subrange(x - from, x - from + n) =~= bytes.subrange(
                                    x,
                                    x + n,
                                ));
                                assert(occurs_at(rest@, p, x - from));
                            }
                        }
                    }
                }
                return;
            },
            Some(at) => {
                let hit: usize = from + at;
                let ghost id0 = id;
                proof {
                    assert(rest@.subrange(at as int, at + n) =~= bytes.subrange(
                        hit as int,
                        hit + n,
                    ));
                }
                while offsets[id + 1] as usize <= hit
                    invariant
                        dict_ok(bytes, offs),
                        offs == offsets@,
                        count == offs.len(),
                        count <= MAX_TOKENS + 1,
                        id0 <= id < count - 1,
                        offs[id as int] <= hit < offs[count - 1],
                    decreases count - id,
                {
                    id = id + 1;
                }
                let end: usize = offsets[id + 1] as usize;
                let ghost before = out@;
                let ghost from0 = from;
                proof {
                    if id + 1 < count - 1 {
                        assert(offs[id + 1] < offs[count - 1]);
                    }
                    assert forall|t: int, x: int| #[trigger]
                        inside(bytes, offs, p, t, x) && x >= from0 implies x >= hit by {
                        if t + 1 < count - 1 {
                            assert(offs[t + 1] < offs[count - 1]);
                        }
                        if x < hit {
                            assert(rest@.subrange(x - from0, x - from0 + n) =~= bytes.subrange(
                                x,
                                x + n,
                            ));
                            assert(occurs_at(rest@, p, x - from0));
                        }
                    }
                    // What begins in token `id` lies in it.
                    assert forall|t: int, x: int| #[trigger]
                        inside(bytes, offs, p, t, x) && hit <= x < end implies t == id by {
                        if t < id {
                            if t + 1 < id {
                                assert(offs[t + 1] < offs[id as int]);
                            }
                        } else if t > id {
                            if id + 1 < t {
                                assert(offs[id + 1] < offs[t]);
                            }
                        }
                    }
                }
                if end - hit >= n {
                    let known: bool = out.len() > 0 && out[out.len() - 1] == id as Token;
                    if !known {
                        out.push(id as Token);
                    }
                    proof {
                        lemma_inside(bytes, offs, p, id as int);
                        assert(inside(bytes, offs, p, id as int, hit as int));
                        assert(out@.contains(id as Token)) by {
                            assert(out@[out@.len() - 1] == id);
                        }
                        assert forall|t: Token| before.contains(t) implies #[trigger] out@.contains(
                            t,
                        ) by {
                            let k = choose|k: int| 0 <= k < before.len() && before[k] == t;
                            assert(out@[k] == t);
                        }
                        assert forall|t: Token| #[trigger] out@.contains(t) implies t < toks.len()
                            && contains(toks[t as int], p) by {
                            let k = choose|k: int| 0 <= k < out@.len() && out@[k] == t;
                            if k < before.len() {
                                assert(before[k] == t);
                                assert(before.contains(t));
                            }
                        }
                    }
                    from = hit + n;
                } else {
                    from = end;
                }
            },
        }
    }
}

/// The ids below `upto` of the tokens that end with the first `k` bytes of the
/// needle.
pub open spec fn entering(tokens: Seq<Seq<u8>>, needle: Seq<u8>, k: int, upto: int) -> Seq<Token>
    decreases upto,
{
    if upto <= 0 {
        Seq::empty()
    } else {
        let rest = entering(tokens, needle, k, upto - 1);
        if ends_with(tokens[upto - 1], needle.take(k)) {
            rest.push((upto - 1) as Token)
        } else {
            rest
        }
    }
}

pub proof fn lemma_entering(tokens: Seq<Seq<u8>>, needle: Seq<u8>, k: int, upto: int)
    requires
        0 <= upto <= tokens.len() <= MAX_TOKENS,
    ensures
        entering(tokens, needle, k, upto).len() <= upto,
        forall|t: Token| #[trigger]
            entering(tokens, needle, k, upto).contains(t) <==> t < upto && ends_with(
                tokens[t as int],
                needle.take(k),
            ),
        forall|i: int, j: int|
            0 <= i < j < entering(tokens, needle, k, upto).len() ==> entering(
                tokens,
                needle,
                k,
                upto,
            )[i] < entering(tokens, needle, k, upto)[j],
    decreases upto,
{
    if upto > 0 {
        lemma_entering(tokens, needle, k, upto - 1);
        let rest = entering(tokens, needle, k, upto - 1);
        let all = entering(tokens, needle, k, upto);
        assert forall|t: Token| #[trigger] all.contains(t) <==> t < upto && ends_with(
            tokens[t as int],
            needle.take(k),
        ) by {
            if all.contains(t) {
                let i = choose|i: int| 0 <= i < all.len() && all[i] == t;
                if i < rest.len() {
                    assert(rest[i] == t);
                    assert(rest.contains(t));
                }
            }
            if t < upto && ends_with(tokens[t as int], needle.take(k)) {
                if t < upto - 1 {
                    assert(rest.contains(t));
                    let i = choose|i: int| 0 <= i < rest.len() && rest[i] == t;
                    assert(all[i] == t);
                } else {
                    assert(all[rest.len() as int] == t);
                }
            }
        }
        assert forall|i: int, j: int| 0 <= i < j < all.len() implies all[i] < all[j] by {
            if j == rest.len() {
                assert(rest.contains(rest[i]));
            }
        }
    }
}

/// One more than the longest part of the needle that a first token can end
/// with.
pub open spec fn kmax(n: int) -> int {
    if n < MAX_TOKEN_SIZE {
        n
    } else {
        MAX_TOKEN_SIZE as int
    }
}

/// The first-token sets: for each alignment `k` how many tokens end with the
/// first `k` bytes of the needle, and which, of at most `SET_CAP`.
pub struct FirstTokens {
    pub count: Vec<usize>,
    pub ids: Vec<Token>,
}

/// The sets of alignment `k` over the tokens below `upto`.
pub open spec fn set_ok(
    count: Seq<usize>,
    ids: Seq<Token>,
    tokens: Seq<Seq<u8>>,
    needle: Seq<u8>,
    k: int,
    upto: int,
) -> bool {
    let all = entering(tokens, needle, k, upto);
    &&& count[k] == all.len()
    &&& forall|j: int| 0 <= j < all.len() && j < SET_CAP ==> #[trigger] ids[k * SET_CAP + j] == all[j]
}

/// Finds the first-token sets in one pass over the dictionary.
///
/// The pass is driven by a final-byte table: a token can end with the first
/// `k` bytes of the needle only if its last byte is the last of those, so one
/// lookup yields the few `k` that are worth comparing.
#[verifier::spinoff_prover]
#[verifier::rlimit(40)]
pub fn first_tokens(dict: DictView<'_>, needle: &[u8]) -> (r: FirstTokens)
    requires
        dict.wf(),
        sized(dict.tokens()),
        needle@.len() > 0,
    ensures
        r.count@.len() == MAX_TOKEN_SIZE,
        r.ids@.len() == MAX_TOKEN_SIZE * SET_CAP,
        forall|k: int|
            1 <= k < kmax(needle@.len() as int) ==> #[trigger] set_ok(
                r.count@,
                r.ids@,
                dict.tokens(),
                needle@,
                k,
                dict.tokens().len() as int,
            ),
{
    let ghost toks = dict.tokens();
    let ghost p = needle@;
    let n: usize = needle.len();
    let ntok: usize = dict.num_tokens();
    let top: usize = if n < MAX_TOKEN_SIZE {
        n
    } else {
        MAX_TOKEN_SIZE
    };
    let mut ks_ending_in: Vec<u64> = vec![0u64; 256];
    let mut k: usize = 1;
    proof {
        assert forall|b: int, j: int| 0 <= b < 256 && 0 <= j < 64 implies !#[trigger] bit(
            ks_ending_in@[b],
            j,
        ) by {
            lemma_zero(j);
        }
    }
    while k < top
        invariant
            1 <= k,
            top <= n,
            top <= MAX_TOKEN_SIZE,
            n == p.len(),
            p == needle@,
            ks_ending_in@.len() == 256,
            forall|b: int, j: int|
                0 <= b < 256 && 0 <= j < 64 ==> (#[trigger] bit(ks_ending_in@[b], j) <==> 1 <= j < k
                    && j < top && p[j - 1] == b),
        decreases top - k,
    {
        let b: usize = needle[k - 1] as usize;
        let word: u64 = ks_ending_in[b];
        let ghost before = ks_ending_in@;
        ks_ending_in.set(b, word | (1u64 << (k as u64)));
        proof {
            assert forall|c: int, j: int| 0 <= c < 256 && 0 <= j < 64 implies (#[trigger] bit(
                ks_ending_in@[c],
                j,
            ) <==> 1 <= j < k + 1 && j < top && p[j - 1] == c) by {
                assert(bit(before[c], j) <==> 1 <= j < k && j < top && p[j - 1] == c);
                if c == b {
                    lemma_set(word, k as int, j);
                }
            }
        }
        k = k + 1;
    }
    let mut count: Vec<usize> = vec![0usize; MAX_TOKEN_SIZE];
    let mut ids: Vec<Token> = vec![0u16; MAX_TOKEN_SIZE * SET_CAP];
    let mut id: usize = 0;
    while id < ntok
        invariant
            dict.wf(),
            toks == dict.tokens(),
            sized(toks),
            p == needle@,
            n == p.len(),
            n > 0,
            ntok == toks.len(),
            top == kmax(n as int),
            id <= ntok <= MAX_TOKENS,
            ks_ending_in@.len() == 256,
            forall|b: int, j: int|
                0 <= b < 256 && 0 <= j < 64 ==> (#[trigger] bit(ks_ending_in@[b], j) <==> 1 <= j
                    < top && p[j - 1] == b),
            count@.len() == MAX_TOKEN_SIZE,
            ids@.len() == MAX_TOKEN_SIZE * SET_CAP,
            forall|k: int|
                1 <= k < top ==> #[trigger] set_ok(count@, ids@, toks, p, k, id as int),
        decreases ntok - id,
    {
        let token = dict.token(id as Token);
        let len: usize = token.len();
        let ghost tok = token@;
        assert(1 <= toks[id as int].len() <= MAX_TOKEN_SIZE);
        proof {
            lemma_low_ones(len + 1, 0);
        }
        let fits: u64 = (1u64 << ((len + 1) as u64)) - 1;
        let row: u64 = ks_ending_in[token[len - 1] as usize];
        let mut ks: u64 = row & fits;
        let ghost all = ks;
        let ghost mut at: int = 0;
        proof {
            assert forall|j: int| 0 <= j < 64 implies (#[trigger] bit(all, j) <==> 1 <= j < top && j
                <= len && p[j - 1] == tok[len - 1]) by {
                lemma_and(row, fits, j);
                lemma_low_ones(len + 1, j);
                assert(bit(ks_ending_in@[tok[len - 1] as int], j) <==> 1 <= j < top && p[j - 1]
                    == tok[len - 1]);
            }
        }
        while ks != 0
            invariant
                sized(toks),
                p == needle@,
                n == p.len(),
                id < toks.len() <= MAX_TOKENS,
                top == kmax(n as int),
                tok == token@,
                tok == toks[id as int],
                len == tok.len(),
                1 <= len <= MAX_TOKEN_SIZE,
                0 <= at <= 64,
                forall|j: int|
                    0 <= j < 64 ==> (#[trigger] bit(all, j) <==> 1 <= j < top && j <= len && p[j - 1]
                        == tok[len - 1]),
                forall|j: int| 0 <= j < 64 ==> (#[trigger] bit(ks, j) <==> j >= at && bit(all, j)),
                count@.len() == MAX_TOKEN_SIZE,
                ids@.len() == MAX_TOKEN_SIZE * SET_CAP,
                forall|k: int|
                    1 <= k < top && k >= at ==> #[trigger] set_ok(
                        count@,
                        ids@,
                        toks,
                        p,
                        k,
                        id as int,
                    ),
                forall|k: int|
                    1 <= k < top && k < at ==> #[trigger] set_ok(
                        count@,
                        ids@,
                        toks,
                        p,
                        k,
                        id + 1,
                    ),
            decreases ks,
        {
            let k: usize = ks.trailing_zeros() as usize;
            let ghost ks0 = ks;
            proof {
                lemma_lowest(ks);
                assert(bit(ks, k as int));
                assert(bit(all, k as int));
                lemma_clear_lowest(ks, 0);
                // The alignments between do not fit.
                assert forall|j: int| 1 <= j < top && at <= j < k implies #[trigger] set_ok(
                    count@,
                    ids@,
                    toks,
                    p,
                    j,
                    id + 1,
                ) by {
                    assert(!bit(ks, j));
                    assert(!bit(all, j));
                    lemma_not_entering(tok, p, j);
                    assert(set_ok(count@, ids@, toks, p, j, id as int));
                }
            }
            ks = ks & (ks - 1);
            proof {
                assert forall|j: int| 0 <= j < 64 implies (#[trigger] bit(ks, j) <==> j >= k + 1
                    && bit(all, j)) by {
                    lemma_clear_lowest(ks0, j);
                    if j < k {
                        assert(!bit(ks0, j));
                    }
                }
            }
            let tail = &token[len - k..len];
            let ghost count0 = count@;
            let ghost ids0 = ids@;
            assert(set_ok(count0, ids0, toks, p, k as int, id as int));
            proof {
                assert(tail@ =~= tok.skip(tok.len() - k));
                lemma_entering(toks, p, k as int, id as int);
            }
            if has_prefix(needle, tail) {
                assert(ends_with(tok, p.take(k as int)));
                let c: usize = count[k];
                if c < SET_CAP {
                    ids.set(k * SET_CAP + c, id as Token);
                }
                count.set(k, c + 1);
                proof {
                    assert forall|j: int| 1 <= j < top && j < k implies #[trigger] set_ok(
                        count@,
                        ids@,
                        toks,
                        p,
                        j,
                        id + 1,
                    ) by {
                        lemma_set_kept(count0, ids0, count@, ids@, toks, p, j, k as int, id + 1);
                    }
                    assert forall|j: int| 1 <= j < top && j > k implies #[trigger] set_ok(
                        count@,
                        ids@,
                        toks,
                        p,
                        j,
                        id as int,
                    ) by {
                        assert(set_ok(count0, ids0, toks, p, j, id as int));
                        lemma_set_kept(count0, ids0, count@, ids@, toks, p, j, k as int, id as int);
                    }
                    assert(set_ok(count@, ids@, toks, p, k as int, id + 1));
                }
            } else {
                assert(!ends_with(tok, p.take(k as int)));
                assert(set_ok(count@, ids@, toks, p, k as int, id + 1));
            }
            proof {
                at = k + 1;
                assert forall|j: int| 1 <= j < top && j < at implies #[trigger] set_ok(
                    count@,
                    ids@,
                    toks,
                    p,
                    j,
                    id + 1,
                ) by {}
                assert forall|j: int| 1 <= j < top && j >= at implies #[trigger] set_ok(
                    count@,
                    ids@,
                    toks,
                    p,
                    j,
                    id as int,
                ) by {}
            }
        }
        proof {
            assert forall|k: int| 1 <= k < top implies #[trigger] set_ok(
                count@,
                ids@,
                toks,
                p,
                k,
                id + 1,
            ) by {
                if k >= at {
                    lemma_zero(k);
                    assert(!bit(ks, k));
                    assert(!bit(all, k));
                    lemma_not_entering(tok, p, k);
                    assert(set_ok(count@, ids@, toks, p, k, id as int));
                }
            }
        }
        id = id + 1;
    }
    FirstTokens { count, ids }
}

proof fn lemma_not_entering(token: Seq<u8>, needle: Seq<u8>, k: int)
    requires
        1 <= k <= needle.len(),
        token.len() > 0,
        k > token.len() || needle[k - 1] != token[token.len() - 1],
    ensures
        !ends_with(token, needle.take(k)),
{
    let head = needle.take(k);
    if ends_with(token, head) {
        assert(token.skip(token.len() - k)[k - 1] == head[k - 1]);
    }
}

/// A set is kept while only the part of another alignment is written.
proof fn lemma_set_kept(
    count0: Seq<usize>,
    ids0: Seq<Token>,
    count: Seq<usize>,
    ids: Seq<Token>,
    tokens: Seq<Seq<u8>>,
    needle: Seq<u8>,
    j: int,
    k: int,
    upto: int,
)
    requires
        set_ok(count0, ids0, tokens, needle, j, upto),
        j != k,
        count[j] == count0[j],
        forall|x: int|
            0 <= x < ids0.len() && !(k * SET_CAP <= x < k * SET_CAP + SET_CAP) ==> #[trigger] ids[x]
                == ids0[x],
        0 <= j < MAX_TOKEN_SIZE,
        0 <= k < MAX_TOKEN_SIZE,
        ids0.len() == MAX_TOKEN_SIZE * SET_CAP,
    ensures
        set_ok(count, ids, tokens, needle, j, upto),
{
    let all = entering(tokens, needle, j, upto);
    assert forall|i: int| 0 <= i < all.len() && i < SET_CAP implies #[trigger] ids[j * SET_CAP + i]
        == all[i] by {
        assert(ids0[j * SET_CAP + i] == all[i]);
    }
}

/// The code that stands for a byte that no token covers.
pub const ESCAPE: Token = 0xFF;

/// `t` is the greedy step of `len` bytes out of offset `o`: the longest token
/// that is a prefix of what remains of the needle, or the escape where none is.
pub open spec fn is_step(tokens: Seq<Seq<u8>>, needle: Seq<u8>, o: int, t: Token, len: int) -> bool {
    let rest = needle.skip(o);
    ||| is_longest(tokens, rest, t as int) && len == tokens[t as int].len()
    ||| no_token(tokens, rest) && t == ESCAPE && len == 1
}

/// The greedy step out of offset `q` leads to offset `o`.
pub open spec fn steps_to(tokens: Seq<Seq<u8>>, needle: Seq<u8>, q: int, o: int) -> bool {
    exists|t: Token| #[trigger] is_step(tokens, needle, q, t, o - q)
}

/// A layout can begin with its second token, or its first, at offset `k`.
pub open spec fn is_entry(tokens: Seq<Seq<u8>>, needle: Seq<u8>, k: int) -> bool {
    k == 0 || (1 <= k < kmax(needle.len() as int) && entering(
        tokens,
        needle,
        k,
        tokens.len() as int,
    ).len() > 0)
}

/// Some layout has a token boundary at offset `o`.
pub open spec fn reached(tokens: Seq<Seq<u8>>, needle: Seq<u8>, o: int) -> bool
    decreases o,
{
    is_entry(tokens, needle, o) || exists|q: int|
        0 <= q < o && reached(tokens, needle, q) && #[trigger] steps_to(tokens, needle, q, o)
}

/// The summed frequency of the tokens of a list.
pub open spec fn list_sum(sums: Seq<u32>, ids: Seq<Token>) -> int
    decreases ids.len(),
{
    if ids.len() == 0 {
        0
    } else {
        list_sum(sums, ids.drop_last()) + sums[ids.last() + 1] - sums[ids.last() as int]
    }
}

/// The edge is a step of the graph, weighted by the frequency of its probe.
pub open spec fn edge_ok(
    e: Edge,
    ids: Seq<Token>,
    tokens: Seq<Seq<u8>>,
    needle: Seq<u8>,
    sums: Seq<u32>,
) -> bool {
    let n = needle.len() as int;
    match e.probe {
        ProbeSet::TooBigSet => {
            &&& e.from == 0
            &&& 1 <= e.to < kmax(n)
            &&& entering(tokens, needle, e.to as int, tokens.len() as int).len() > SET_CAP
            &&& e.weight == 0
        },
        ProbeSet::FirstSet { start, len } => {
            let all = entering(tokens, needle, e.to as int, tokens.len() as int);
            &&& e.from == 0
            &&& 1 <= e.to < kmax(n)
            &&& start + len <= ids.len()
            &&& ids.subrange(start as int, start + len) == all
            &&& 1 <= len <= SET_CAP
            &&& e.weight == list_sum(sums, all)
        },
        ProbeSet::Point(t) => {
            &&& e.to < n
            &&& reached(tokens, needle, e.from as int)
            &&& is_step(tokens, needle, e.from as int, t, e.to - e.from)
            &&& e.weight == sums[t + 1] - sums[t as int]
        },
        ProbeSet::Range(r) => {
            &&& e.from < n
            &&& e.to == n
            &&& reached(tokens, needle, e.from as int)
            &&& !r.nothing()
            &&& is_prefix_range(r, tokens, needle.skip(e.from as int))
            &&& e.weight == range_sum(sums, r)
        },
    }
}

/// The edge enters the graph at offset `k`.
pub open spec fn enters_at(e: Edge, k: int) -> bool {
    (e.probe is TooBigSet || e.probe is FirstSet) && e.to == k
}

/// The edge is the greedy step out of offset `o`.
pub open spec fn points_from(e: Edge, o: int) -> bool {
    e.probe is Point && e.from == o
}

/// The edge ends the needle out of offset `o`.
pub open spec fn ends_from(e: Edge, o: int) -> bool {
    e.probe is Range && e.from == o
}

/// The two edges are one step.
pub open spec fn same_step(a: Edge, b: Edge) -> bool {
    ||| enters_at(a, b.to as int) && enters_at(b, b.to as int)
    ||| points_from(a, b.from as int) && points_from(b, b.from as int)
    ||| ends_from(a, b.from as int) && ends_from(b, b.from as int)
}

pub open spec fn has_entry(edges: Seq<Edge>, k: int) -> bool {
    exists|i: int| 0 <= i < edges.len() && enters_at(#[trigger] edges[i], k)
}

pub open spec fn has_point(edges: Seq<Edge>, o: int) -> bool {
    exists|i: int| 0 <= i < edges.len() && points_from(#[trigger] edges[i], o)
}

pub open spec fn has_range(edges: Seq<Edge>, o: int) -> bool {
    exists|i: int| 0 <= i < edges.len() && ends_from(#[trigger] edges[i], o)
}

/// Some token begins with what remains of the needle at offset `o`.
pub open spec fn can_end(tokens: Seq<Seq<u8>>, needle: Seq<u8>, o: int) -> bool {
    exists|t: int| 0 <= t < tokens.len() && starts_with(#[trigger] tokens[t], needle.skip(o))
}

/// All steps out of offset `o` are there.
pub open spec fn state_done(
    edges: Seq<Edge>,
    tokens: Seq<Seq<u8>>,
    needle: Seq<u8>,
    o: int,
) -> bool {
    &&& can_end(tokens, needle, o) ==> has_range(edges, o)
    &&& forall|q: int| #[trigger]
        steps_to(tokens, needle, o, q) && q < needle.len() ==> has_point(edges, o)
}

/// The edges are exactly the steps of the alignment graph, each once.
#[verifier::opaque]
pub open spec fn is_graph(
    edges: Seq<Edge>,
    ids: Seq<Token>,
    tokens: Seq<Seq<u8>>,
    needle: Seq<u8>,
    sums: Seq<u32>,
) -> bool {
    let n = needle.len() as int;
    &&& forall|i: int|
        0 <= i < edges.len() ==> edge_ok(#[trigger] edges[i], ids, tokens, needle, sums)
    &&& forall|i: int, j: int| 0 <= i < j < edges.len() ==> !same_step(edges[i], edges[j])
    &&& forall|k: int|
        1 <= k < kmax(n) && #[trigger] is_entry(tokens, needle, k) ==> has_entry(edges, k)
    &&& forall|o: int|
        0 <= o < n && #[trigger] reached(tokens, needle, o) ==> state_done(edges, tokens, needle, o)
}

/// Every edge of a graph is one of its steps.
pub proof fn lemma_edge(
    edges: Seq<Edge>,
    ids: Seq<Token>,
    tokens: Seq<Seq<u8>>,
    needle: Seq<u8>,
    sums: Seq<u32>,
    i: int,
)
    requires
        is_graph(edges, ids, tokens, needle, sums),
        0 <= i < edges.len(),
    ensures
        edge_ok(edges[i], ids, tokens, needle, sums),
{
    reveal(is_graph);
}

/// Two edges of a graph are two steps.
pub proof fn lemma_distinct(
    edges: Seq<Edge>,
    ids: Seq<Token>,
    tokens: Seq<Seq<u8>>,
    needle: Seq<u8>,
    sums: Seq<u32>,
    i: int,
    j: int,
)
    requires
        is_graph(edges, ids, tokens, needle, sums),
        0 <= i < j < edges.len(),
    ensures
        !same_step(edges[i], edges[j]),
{
    reveal(is_graph);
}

/// A graph has every step out of an offset that is reached.
pub proof fn lemma_state(
    edges: Seq<Edge>,
    ids: Seq<Token>,
    tokens: Seq<Seq<u8>>,
    needle: Seq<u8>,
    sums: Seq<u32>,
    o: int,
)
    requires
        is_graph(edges, ids, tokens, needle, sums),
        0 <= o < needle.len(),
        reached(tokens, needle, o),
    ensures
        state_done(edges, tokens, needle, o),
{
    reveal(is_graph);
}

/// A graph has every entry.
pub proof fn lemma_has_entry(
    edges: Seq<Edge>,
    ids: Seq<Token>,
    tokens: Seq<Seq<u8>>,
    needle: Seq<u8>,
    sums: Seq<u32>,
    k: int,
)
    requires
        is_graph(edges, ids, tokens, needle, sums),
        1 <= k < kmax(needle.len() as int),
        is_entry(tokens, needle, k),
    ensures
        has_entry(edges, k),
{
    reveal(is_graph);
}

proof fn lemma_list_sum(sums: Seq<u32>, ids: Seq<Token>)
    requires
        layout_ok(sums),
        forall|i: int| 0 <= i < ids.len() ==> #[trigger] ids[i] < sums.len() - 1,
        forall|i: int, j: int| 0 <= i < j < ids.len() ==> ids[i] < ids[j],
    ensures
        0 <= list_sum(sums, ids) <= u32::MAX,
        ids.len() > 0 ==> list_sum(sums, ids) <= sums[ids.last() + 1],
    decreases ids.len(),
{
    if ids.len() > 0 {
        let rest = ids.drop_last();
        lemma_list_sum(sums, rest);
        assert(ids.last() < sums.len() - 1);
        assert(sums[ids.last() as int] <= sums[ids.last() + 1]);
        if rest.len() > 0 {
            assert(rest.last() < ids.last());
            assert(sums[rest.last() + 1] <= sums[ids.last() as int]);
        }
    }
}

/// How many are marked.
spec fn marked(s: Seq<bool>) -> int
    decreases s.len(),
{
    if s.len() == 0 {
        0
    } else {
        marked(s.drop_last()) + if s.last() {
            1int
        } else {
            0int
        }
    }
}

proof fn lemma_marked(s: Seq<bool>)
    ensures
        0 <= marked(s) <= s.len(),
        (forall|i: int| 0 <= i < s.len() ==> !#[trigger] s[i]) ==> marked(s) == 0,
    decreases s.len(),
{
    if s.len() > 0 {
        lemma_marked(s.drop_last());
    }
}

proof fn lemma_mark(s: Seq<bool>, i: int)
    requires
        0 <= i < s.len(),
        !s[i],
    ensures
        marked(s.update(i, true)) == marked(s) + 1,
    decreases s.len(),
{
    let u = s.update(i, true);
    if i == s.len() - 1 {
        assert(u.drop_last() =~= s.drop_last());
    } else {
        assert(u.drop_last() =~= s.drop_last().update(i, true));
        lemma_mark(s.drop_last(), i);
    }
}

struct Builder<'d, 'n, 'f> {
    dict: DictView<'d>,
    needle: &'n [u8],
    frequencies: TokenFrequencyIndexView<'f>,
    first_set_ids: Vec<Token>,
    edges: Vec<Edge>,
    nodes: Nodes,
    /// `built[o]`: whether the steps out of offset `o` have been emitted.
    built: Vec<bool>,
}

impl<'d, 'n, 'f> Builder<'d, 'n, 'f> {
    /// What the builder reads.
    spec fn input(&self) -> (DictView<'d>, &'n [u8], TokenFrequencyIndexView<'f>, Nodes) {
        (self.dict, self.needle, self.frequencies, self.nodes)
    }

    spec fn readable(&self) -> bool {
        let toks = self.dict.tokens();
        &&& self.dict.wf()
        &&& sorted(toks)
        &&& sized(toks)
        &&& self.frequencies.wf()
        &&& layout_ok(self.frequencies.sums())
        &&& toks.len() < self.frequencies.sums().len()
        &&& complete(toks) || ESCAPE + 1 < self.frequencies.sums().len()
        &&& 0 < self.needle@.len() < u32::MAX
        &&& self.nodes.needle_len == self.needle@.len()
    }

    /// What holds between the steps, with the entries below `k` emitted and
    /// nothing yet out of `pending`.
    spec fn wf(&self, k: int, pending: int) -> bool {
        let toks = self.dict.tokens();
        let p = self.needle@;
        let n = p.len() as int;
        let edges = self.edges@;
        &&& self.readable()
        &&& self.built@.len() == n
        &&& self.first_set_ids@.len() <= k * SET_CAP
        &&& edges.len() <= 2 * marked(self.built@) + k
        &&& forall|i: int|
            0 <= i < edges.len() ==> edge_ok(
                #[trigger] edges[i],
                self.first_set_ids@,
                toks,
                p,
                self.frequencies.sums(),
            )
        &&& forall|i: int, j: int| 0 <= i < j < edges.len() ==> !same_step(edges[i], edges[j])
        &&& forall|i: int|
            0 <= i < edges.len() ==> {
                &&& (#[trigger] edges[i]).probe is Point || edges[i].probe is Range
                    ==> self.built@[edges[i].from as int]
                &&& edges[i].probe is TooBigSet || edges[i].probe is FirstSet ==> edges[i].to < k
            }
        &&& forall|o: int|
            0 <= o < n && #[trigger] self.built@[o] ==> reached(toks, p, o) && state_done(
                edges,
                toks,
                p,
                o,
            )
        &&& forall|q: int, o: int|
            0 <= q < n && self.built@[q] && #[trigger] steps_to(toks, p, q, o) && q < o < n
                ==> self.built@[o] || o == pending
        &&& forall|e: int|
            1 <= e < k && e < kmax(n) && #[trigger] is_entry(toks, p, e) ==> has_entry(edges, e)
    }

    /// Term frequency of a probe. Summing an explicit set cannot overflow: its
    /// ids are distinct, so the sum is at most the code stream's length.
    fn weight_of(&self, set: ProbeSet, Ghost(all): Ghost<Seq<Token>>) -> (r: u32)
        requires
            self.readable(),
            set matches ProbeSet::Point(t) ==> t < self.frequencies.sums().len() - 1,
            set matches ProbeSet::Range(range) ==> !range.nothing() && range.last
                < self.frequencies.sums().len() - 1,
            set matches ProbeSet::FirstSet { start, len } ==> start + len
                <= self.first_set_ids@.len() && start + len <= u32::MAX
                && self.first_set_ids@.subrange(start as int, start + len) == all && (forall|i: int|
                0 <= i < all.len() ==> #[trigger] all[i] < self.frequencies.sums().len() - 1) && (
            forall|i: int, j: int| 0 <= i < j < all.len() ==> all[i] < all[j]),
        ensures
            r == match set {
                ProbeSet::TooBigSet => 0,
                ProbeSet::Point(t) => self.frequencies.sums()[t + 1]
                    - self.frequencies.sums()[t as int],
                ProbeSet::Range(range) => range_sum(self.frequencies.sums(), range),
                ProbeSet::FirstSet { start, len } => list_sum(self.frequencies.sums(), all),
            },
    {
        match set {
            ProbeSet::TooBigSet => 0,
            ProbeSet::Point(id) => self.frequencies.frequency(id),
            ProbeSet::Range(range) => self.frequencies.range_frequency(range),
            ProbeSet::FirstSet { start, len } => {
                let mut sum: u32 = 0;
                let mut k: u32 = 0;
                let ghost sums = self.frequencies.sums();
                while k < len
                    invariant
                        self.readable(),
                        sums == self.frequencies.sums(),
                        k <= len,
                        start + len <= self.first_set_ids@.len(),
                        start + len <= u32::MAX,
                        self.first_set_ids@.subrange(start as int, start + len) == all,
                        forall|i: int| 0 <= i < all.len() ==> #[trigger] all[i] < sums.len() - 1,
                        forall|i: int, j: int| 0 <= i < j < all.len() ==> all[i] < all[j],
                        sum == list_sum(sums, all.take(k as int)),
                    decreases len - k,
                {
                    let id: Token = self.first_set_ids[(start + k) as usize];
                    proof {
                        assert(id == all[k as int]);
                        let next = all.take(k + 1);
                        assert(next.drop_last() =~= all.take(k as int));
                        assert forall|i: int| 0 <= i < next.len() implies #[trigger] next[i]
                            < sums.len() - 1 by {
                            assert(next[i] == all[i]);
                        }
                        lemma_list_sum(sums, next);
                    }
                    sum = sum + self.frequencies.frequency(id);
                    k = k + 1;
                }
                assert(all.take(len as int) =~= all);
                sum
            },
        }
    }

    /// The greedy step out of `offset`: its token and length, or the escape
    /// where no token is a prefix of what remains.
    fn greedy_at(&self, offset: usize) -> (r: (Token, usize))
        requires
            self.readable(),
            offset < self.needle@.len(),
        ensures
            is_step(self.dict.tokens(), self.needle@, offset as int, r.0, r.1 as int),
            1 <= r.1 <= self.needle@.len() - offset,
            r.0 < self.frequencies.sums().len() - 1,
    {
        let rest = &self.needle[offset..self.needle.len()];
        assert(rest@ =~= self.needle@.skip(offset as int));
        match longest_token(self.dict, rest) {
            Some(hit) => hit,
            None => {
                proof {
                    if complete(self.dict.tokens()) {
                        lemma_some_token(self.dict.tokens(), rest@);
                    }
                }
                (ESCAPE, 1)
            },
        }
    }

    /// The tokens that the needle suffix at `offset` is a prefix of. A suffix
    /// longer than a token can be no token's prefix.
    fn terminal_range(&self, offset: usize) -> (r: TokenRange)
        requires
            self.readable(),
            offset < self.needle@.len(),
        ensures
            is_prefix_range(r, self.dict.tokens(), self.needle@.skip(offset as int)),
    {
        let suffix = &self.needle[offset..self.needle.len()];
        assert(suffix@ =~= self.needle@.skip(offset as int));
        if suffix.len() > MAX_TOKEN_SIZE {
            let r = TokenRange::empty_range();
            proof {
                assert forall|t: int| #[trigger] r.has(t) <==> 0 <= t < self.dict.tokens().len()
                    && starts_with(self.dict.tokens()[t], suffix@) by {
                    if 0 <= t < self.dict.tokens().len() {
                        assert(self.dict.tokens()[t].len() <= MAX_TOKEN_SIZE);
                    }
                }
            }
            return r;
        }
        prefix_range(self.dict, suffix)
    }

    /// Emits the steps out of the state at `offset` and returns where its
    /// greedy step lands.
    #[verifier::spinoff_prover]
    #[verifier::rlimit(40)]
    fn build_state(&mut self, offset: usize, Ghost(k): Ghost<int>) -> (next: usize)
        requires
            old(self).wf(k, offset as int),
            0 <= k <= MAX_TOKEN_SIZE,
            offset < old(self).needle@.len(),
            !old(self).built@[offset as int],
            reached(old(self).dict.tokens(), old(self).needle@, offset as int),
        ensures
            final(self).input() == old(self).input(),
            final(self).built@ == old(self).built@.update(offset as int, true),
            final(self).wf(k, next as int),
            steps_to(final(self).dict.tokens(), final(self).needle@, offset as int, next as int),
            offset < next <= final(self).needle@.len(),
    {
        let ghost toks = self.dict.tokens();
        let ghost p = self.needle@;
        let ghost sums = self.frequencies.sums();
        let ghost g0 = *self;
        let n: usize = self.needle.len();
        let state: u32 = offset as u32;
        proof {
            lemma_mark(self.built@, offset as int);
        }
        self.built.set(offset, true);
        // The occurrence may end inside a longer token starting here.
        let terminal = self.terminal_range(offset);
        if !terminal.is_empty() {
            proof {
                assert(terminal.has(terminal.last as int));
            }
            let probe = ProbeSet::Range(terminal);
            let weight: u32 = self.weight_of(probe, Ghost(Seq::empty()));
            let to: u32 = self.nodes.sink();
            self.edges.push(Edge { from: state, to, probe, weight });
        }
        let (token, len) = self.greedy_at(offset);
        let next: usize = offset + len;
        if next < n {
            let probe = ProbeSet::Point(token);
            let weight: u32 = self.weight_of(probe, Ghost(Seq::empty()));
            self.edges.push(Edge { from: state, to: next as u32, probe, weight });
        }
        proof {
            let edges = self.edges@;
            let before = g0.edges@;
            assert(next as int - offset as int == len as int);
            assert(is_step(toks, p, offset as int, token, next as int - offset as int));
            assert(steps_to(toks, p, offset as int, next as int));
            assert forall|i: int| 0 <= i < edges.len() implies edge_ok(
                #[trigger] edges[i],
                self.first_set_ids@,
                toks,
                p,
                sums,
            ) by {
                if i < before.len() {
                    assert(edges[i] == before[i]);
                }
            }
            assert forall|i: int, j: int| 0 <= i < j < edges.len() implies !same_step(
                edges[i],
                edges[j],
            ) by {
                assert(i < before.len() ==> edges[i] == before[i]);
                assert(j < before.len() ==> edges[j] == before[j]);
                if i < before.len() && j >= before.len() {
                    if before[i].probe is Point || before[i].probe is Range {
                        assert(g0.built@[before[i].from as int]);
                    }
                }
            }
            assert forall|i: int| 0 <= i < edges.len() implies {
                &&& (#[trigger] edges[i]).probe is Point || edges[i].probe is Range
                    ==> self.built@[edges[i].from as int]
                &&& edges[i].probe is TooBigSet || edges[i].probe is FirstSet ==> edges[i].to < k
            } by {
                if i < before.len() {
                    assert(edges[i] == before[i]);
                }
            }
            lemma_more_edges(before, edges, toks, p);
            assert(state_done(edges, toks, p, offset as int)) by {
                if can_end(toks, p, offset as int) {
                    let t = choose|t: int|
                        0 <= t < toks.len() && starts_with(
                            #[trigger] toks[t],
                            p.skip(offset as int),
                        );
                    assert(terminal.has(t));
                    assert(ends_from(edges[before.len() as int], offset as int));
                }
                assert forall|q: int| #[trigger] steps_to(toks, p, offset as int, q) && q
                    < p.len() implies has_point(edges, offset as int) by {
                    lemma_one_step(toks, p, offset as int, q, next as int);
                    assert(points_from(edges[edges.len() - 1], offset as int));
                }
            }
            assert forall|o: int| 0 <= o < n && #[trigger] self.built@[o] implies reached(
                toks,
                p,
                o,
            ) && state_done(edges, toks, p, o) by {
                if o != offset {
                    assert(g0.built@[o]);
                }
            }
            assert forall|q: int, o: int|
                0 <= q < n && self.built@[q] && #[trigger] steps_to(toks, p, q, o) && q < o
                    < n implies self.built@[o] || o == next by {
                if q == offset {
                    lemma_one_step(toks, p, offset as int, o, next as int);
                } else {
                    assert(g0.built@[q]);
                }
            }
            assert forall|e: int|
                1 <= e < k && e < kmax(n as int) && #[trigger] is_entry(
                    toks,
                    p,
                    e,
                ) implies has_entry(edges, e) by {
                assert(has_entry(before, e));
            }
        }
        next
    }

    /// Emits the steps out of `start` and out of every offset that its greedy
    /// chain reaches, stopping at the first offset already emitted.
    fn ensure_chain(&mut self, start: usize, Ghost(k): Ghost<int>)
        requires
            old(self).wf(k, start as int),
            0 <= k <= MAX_TOKEN_SIZE,
            start < old(self).needle@.len(),
            reached(old(self).dict.tokens(), old(self).needle@, start as int),
        ensures
            final(self).input() == old(self).input(),
            final(self).wf(k, -1),
            final(self).built@[start as int],
            forall|o: int|
                0 <= o < old(self).built@.len() && #[trigger] old(self).built@[o]
                    ==> final(self).built@[o],
    {
        let n: usize = self.needle.len();
        let ghost toks = self.dict.tokens();
        let ghost p = self.needle@;
        let ghost g0 = *self;
        let mut offset: usize = start;
        let mut going: bool = true;
        while going && !self.built[offset]
            invariant
                self.input() == g0.input(),
                g0.input() == old(self).input(),
                g0.built@ == old(self).built@,
                g0.built@.len() == n,
                toks == self.dict.tokens(),
                p == self.needle@,
                n == p.len(),
                0 <= k <= MAX_TOKEN_SIZE,
                going ==> offset < n,
                self.wf(k, offset as int),
                going ==> reached(toks, p, offset as int),
                start <= offset,
                start == offset && going || self.built@[start as int],
                start < n,
                !going ==> offset >= n,
                forall|o: int|
                    0 <= o < g0.built@.len() && #[trigger] g0.built@[o] ==> self.built@[o],
            decreases n - offset,
        {
            let next: usize = self.build_state(offset, Ghost(k));
            if next >= n {
                going = false;
            } else {
                proof {
                    let q = offset as int;
                    assert(reached(toks, p, q));
                    if !self.built@[next as int] {
                        assert(self.wf(k, next as int));
                    }
                }
            }
            proof {
                if next < n {
                    assert(steps_to(toks, p, offset as int, next as int));
                    lemma_reached(toks, p, offset as int, next as int);
                }
            }
            offset = next;
        }
        proof {
            let edges = self.edges@;
            assert forall|q: int, o: int|
                0 <= q < n && self.built@[q] && #[trigger] steps_to(toks, p, q, o) && q < o
                    < n implies self.built@[o] || o == -1 by {}
        }
    }
}

pub proof fn lemma_reached(tokens: Seq<Seq<u8>>, needle: Seq<u8>, q: int, o: int)
    requires
        0 <= q < o,
        reached(tokens, needle, q),
        steps_to(tokens, needle, q, o),
    ensures
        reached(tokens, needle, o),
{
    reveal_with_fuel(reached, 2);
    assert(0 <= q < o && reached(tokens, needle, q) && steps_to(tokens, needle, q, o));
}

/// There is one greedy step out of an offset.
pub proof fn lemma_one_step(tokens: Seq<Seq<u8>>, needle: Seq<u8>, q: int, a: int, b: int)
    requires
        sized(tokens),
        0 <= q < needle.len(),
        steps_to(tokens, needle, q, a),
        steps_to(tokens, needle, q, b),
    ensures
        a == b,
        q < a <= needle.len(),
{
    let rest = needle.skip(q);
    let t = choose|t: Token| #[trigger] is_step(tokens, needle, q, t, a - q);
    let u = choose|t: Token| #[trigger] is_step(tokens, needle, q, t, b - q);
    if is_longest(tokens, rest, t as int) {
        assert(tokens[t as int].len() >= 1);
        assert(starts_with(rest, tokens[t as int]));
    }
    if is_longest(tokens, rest, u as int) {
        assert(starts_with(rest, tokens[u as int]));
    }
}

/// Edges that are added leave what was there.
proof fn lemma_more_edges(before: Seq<Edge>, edges: Seq<Edge>, tokens: Seq<Seq<u8>>, needle: Seq<u8>)
    requires
        before.len() <= edges.len(),
        forall|i: int| 0 <= i < before.len() ==> #[trigger] edges[i] == before[i],
    ensures
        forall|o: int| #[trigger] has_range(before, o) ==> has_range(edges, o),
        forall|o: int| #[trigger] has_point(before, o) ==> has_point(edges, o),
        forall|o: int| #[trigger] has_entry(before, o) ==> has_entry(edges, o),
        forall|o: int|
            state_done(before, tokens, needle, o) ==> #[trigger] state_done(
                edges,
                tokens,
                needle,
                o,
            ),
{
    assert forall|o: int| #[trigger] has_range(before, o) implies has_range(edges, o) by {
        let i = choose|i: int| 0 <= i < before.len() && ends_from(#[trigger] before[i], o);
        assert(ends_from(edges[i], o));
    }
    assert forall|o: int| #[trigger] has_point(before, o) implies has_point(edges, o) by {
        let i = choose|i: int| 0 <= i < before.len() && points_from(#[trigger] before[i], o);
        assert(points_from(edges[i], o));
    }
    assert forall|o: int| #[trigger] has_entry(before, o) implies has_entry(edges, o) by {
        let i = choose|i: int| 0 <= i < before.len() && enters_at(#[trigger] before[i], o);
        assert(enters_at(edges[i], o));
    }
}

/// The edge's probe holds token `t`.
pub open spec fn probes(e: Edge, ids: Seq<Token>, t: int) -> bool {
    match e.probe {
        ProbeSet::TooBigSet => false,
        ProbeSet::Point(id) => t == id,
        ProbeSet::Range(r) => r.has(t),
        ProbeSet::FirstSet { start, len } => 0 <= t <= Token::MAX && ids.subrange(
            start as int,
            start + len,
        ).contains(t as Token),
    }
}

/// The alignment graph for one needle over one dictionary.
pub struct AlignmentGraph {
    /// Every first-token set's ids, back to back.
    pub first_set_ids: Vec<Token>,
    /// The parse steps, each with its probe and that probe's weight.
    pub edges: Vec<Edge>,
    /// Tokens whose bytes contain the whole needle: mandatory, outside the cut.
    pub contained: Vec<Token>,
    pub nodes: Nodes,
    pub num_tokens: usize,
}

/// What building a graph asks of its inputs.
pub open spec fn graph_input(dict: DictView<'_>, needle: Seq<u8>, sums: Seq<u32>) -> bool {
    &&& dict.wf()
    &&& sorted(dict.tokens())
    &&& sized(dict.tokens())
    &&& 0 < needle.len() < u32::MAX
    &&& dict.tokens().len() < sums.len()
    &&& complete(dict.tokens()) || ESCAPE + 1 < sums.len()
}

impl AlignmentGraph {
    /// The graph is that of `needle` over `tokens`, with the weights that the
    /// prefix sums give.
    pub open spec fn of(&self, tokens: Seq<Seq<u8>>, needle: Seq<u8>, sums: Seq<u32>) -> bool {
        &&& is_graph(self.edges@, self.first_set_ids@, tokens, needle, sums)
        &&& are_containing(self.contained@, tokens, needle)
        &&& self.nodes.needle_len == needle.len()
        &&& self.num_tokens == tokens.len()
        &&& self.edges@.len() <= 2 * needle.len() + 16
    }
}

impl AlignmentGraph {
    /// The width of a membership table.
    pub open spec fn width(&self) -> int {
        if self.num_tokens > 256 {
            self.num_tokens as int
        } else {
            256
        }
    }

    /// The ids that edge `i` probes for are within the table.
    pub open spec fn probe_fits(&self, i: int) -> bool {
        &&& 0 <= i < self.edges@.len()
        &&& match self.edges@[i].probe {
            ProbeSet::TooBigSet => true,
            ProbeSet::Point(t) => t < self.width(),
            ProbeSet::Range(r) => !r.nothing() ==> r.last < self.width(),
            ProbeSet::FirstSet { start, len } => start + len <= self.first_set_ids@.len() && (
            forall|k: int|
                start <= k < start + len ==> #[trigger] self.first_set_ids@[k] < self.width()),
        }
    }

    /// The token ids that the probes of `cut` cover, as a table. The tokens
    /// that contain the whole needle are not among them: they are mandatory
    /// rather than chosen.
    pub fn membership(&self, cut: &[u32]) -> (members: Vec<bool>)
        requires
            forall|k: int| 0 <= k < cut@.len() ==> self.probe_fits(#[trigger] cut@[k] as int),
        ensures
            members@.len() == self.width(),
            forall|t: int|
                0 <= t < members@.len() ==> (#[trigger] members@[t] <==> exists|k: int|
                    0 <= k < cut@.len() && probes(
                        self.edges@[#[trigger] cut@[k] as int],
                        self.first_set_ids@,
                        t,
                    )),
    {
        let width: usize = if self.num_tokens > 256 {
            self.num_tokens
        } else {
            256
        };
        let ghost ids = self.first_set_ids@;
        let mut members: Vec<bool> = vec![false; width];
        let mut k: usize = 0;
        while k < cut.len()
            invariant
                width == self.width(),
                ids == self.first_set_ids@,
                k <= cut@.len(),
                members@.len() == width,
                forall|j: int| 0 <= j < cut@.len() ==> self.probe_fits(#[trigger] cut@[j] as int),
                forall|t: int|
                    0 <= t < width ==> (#[trigger] members@[t] <==> exists|j: int|
                        0 <= j < k && probes(self.edges@[#[trigger] cut@[j] as int], ids, t)),
            decreases cut@.len() - k,
        {
            let ghost before = members@;
            let at: usize = cut[k] as usize;
            assert(self.probe_fits(cut@[k as int] as int));
            let edge: Edge = self.edges[at];
            match edge.probe {
                ProbeSet::TooBigSet => {},
                ProbeSet::Point(id) => {
                    members.set(id as usize, true);
                },
                ProbeSet::Range(range) => {
                    mark_range(&mut members, range);
                },
                ProbeSet::FirstSet { start, len } => {
                    let listed: usize = self.first_set_ids.len();
                    let mut j: usize = 0;
                    let ghost all = ids.subrange(start as int, start + len);
                    while j < len as usize
                        invariant
                            j <= len,
                            listed == ids.len(),
                            ids == self.first_set_ids@,
                            start + len <= ids.len(),
                            width == self.width(),
                            all == ids.subrange(start as int, start + len),
                            forall|q: int|
                                start <= q < start + len ==> #[trigger] self.first_set_ids@[q]
                                    < self.width(),
                            before.len() == width,
                            members@.len() == width,
                            forall|t: int|
                                0 <= t < width ==> (#[trigger] members@[t] <==> before[t]
                                    || exists|q: int| 0 <= q < j && #[trigger] all[q] == t),
                        decreases len - j,
                    {
                        let id: Token = self.first_set_ids[start as usize + j];
                        let ghost inner = members@;
                        assert(id == all[j as int]);
                        members.set(id as usize, true);
                        proof {
                            assert forall|t: int| 0 <= t < width implies (#[trigger] members@[t]
                                <==> before[t] || exists|q: int|
                                0 <= q < j + 1 && #[trigger] all[q] == t) by {
                                assert(inner[t] <==> before[t] || exists|q: int|
                                    0 <= q < j && #[trigger] all[q] == t);
                            }
                        }
                        j = j + 1;
                    }
                    proof {
                        assert forall|t: int| 0 <= t < width implies (#[trigger] members@[t]
                            <==> before[t] || probes(edge, ids, t)) by {
                            if 0 <= t <= Token::MAX && all.contains(t as Token) {
                                let q = choose|q: int| 0 <= q < all.len() && all[q] == t as Token;
                                assert(all[q] == t);
                            }
                            if exists|q: int| 0 <= q < len && #[trigger] all[q] == t {
                                let q = choose|q: int| 0 <= q < len && #[trigger] all[q] == t;
                                assert(all.contains(all[q]));
                            }
                        }
                    }
                },
            }
            proof {
                assert forall|t: int| 0 <= t < width implies (#[trigger] members@[t] <==> before[t]
                    || probes(edge, ids, t)) by {}
                assert forall|t: int| 0 <= t < width implies (#[trigger] members@[t] <==> exists|
                    j: int,
                |
                    0 <= j < k + 1 && probes(self.edges@[#[trigger] cut@[j] as int], ids, t)) by {
                    assert(before[t] <==> exists|j: int|
                        0 <= j < k && probes(self.edges@[#[trigger] cut@[j] as int], ids, t));
                    assert(self.edges@[cut@[k as int] as int] == edge);
                }
            }
            k = k + 1;
        }
        members
    }
}

/// The probes of a graph fit its membership table.
pub proof fn lemma_probes_fit(
    g: &AlignmentGraph,
    tokens: Seq<Seq<u8>>,
    needle: Seq<u8>,
    sums: Seq<u32>,
    i: int,
)
    requires
        g.of(tokens, needle, sums),
        sized(tokens),
        0 <= i < g.edges@.len(),
    ensures
        g.probe_fits(i),
{
    let e = g.edges@[i];
    lemma_edge(g.edges@, g.first_set_ids@, tokens, needle, sums, i);
    match e.probe {
        ProbeSet::Range(r) => {
            assert(r.has(r.last as int));
        },
        ProbeSet::FirstSet { start, len } => {
            let all = entering(tokens, needle, e.to as int, tokens.len() as int);
            lemma_entering(tokens, needle, e.to as int, tokens.len() as int);
            assert forall|k: int| start <= k < start + len implies #[trigger] g.first_set_ids@[k]
                < g.width() by {
                assert(all[k - start] == g.first_set_ids@[k]);
                assert(all.contains(all[k - start]));
            }
        },
        _ => {},
    }
}

/// Builds the alignment graph for `needle` over `dict`, weighting each probe
/// by its term frequency in the indexed code stream.
pub fn build_alignment_graph(
    dict: DictView<'_>,
    needle: &[u8],
    frequencies: TokenFrequencyIndexView<'_>,
) -> (g: AlignmentGraph)
    requires
        frequencies.wf(),
        graph_input(dict, needle@, frequencies.sums()),
    ensures
        g.of(dict.tokens(), needle@, frequencies.sums()),
{
    let n: usize = needle.len();
    let ntok: usize = dict.num_tokens();
    let ghost toks = dict.tokens();
    let ghost p = needle@;
    let ghost sums = frequencies.sums();
    let contained = contained_tokens(dict, needle);
    let first = first_tokens(dict, needle);
    let mut b = Builder {
        dict,
        needle,
        frequencies,
        first_set_ids: Vec::new(),
        edges: Vec::new(),
        nodes: Nodes::new(n),
        built: vec![false; n],
    };
    let top: usize = if n < MAX_TOKEN_SIZE {
        n
    } else {
        MAX_TOKEN_SIZE
    };
    proof {
        lemma_marked(b.built@);
    }
    let mut k: usize = 0;
    while k < top
        invariant
            k <= top,
            top == kmax(n as int),
            n == p.len(),
            p == needle@,
            b.dict == dict,
            b.needle == needle,
            b.frequencies == frequencies,
            toks == dict.tokens(),
            ntok == toks.len(),
            sums == frequencies.sums(),
            b.wf(k as int, -1),
            first.count@.len() == MAX_TOKEN_SIZE,
            first.ids@.len() == MAX_TOKEN_SIZE * SET_CAP,
            forall|j: int|
                1 <= j < top ==> #[trigger] set_ok(
                    first.count@,
                    first.ids@,
                    toks,
                    p,
                    j,
                    ntok as int,
                ),
            forall|j: int|
                0 <= j < k && #[trigger] is_entry(toks, p, j) ==> b.built@[j],
        decreases top - k,
    {
        if k == 0 {
            // Alignment 0 begins at the source itself, so it needs no entry.
            assert(is_entry(toks, p, 0));
            b.ensure_chain(0, Ghost(0));
            proof {
                assert(b.wf(1, -1));
            }
        } else {
            assert(set_ok(first.count@, first.ids@, toks, p, k as int, ntok as int));
            let count: usize = first.count[k];
            if count > 0 {
                let ghost g0 = b;
                assert(is_entry(toks, p, k as int));
                b.ensure_chain(k, Ghost(k as int));
                b.add_entry(k, count, &first.ids);
                proof {
                    assert forall|j: int| 0 <= j < k + 1 && #[trigger] is_entry(
                        toks,
                        p,
                        j,
                    ) implies b.built@[j] by {
                        if j < k {
                            assert(g0.built@[j]);
                        }
                    }
                }
            } else {
                assert(!is_entry(toks, p, k as int));
                assert(b.wf(k + 1, -1));
            }
        }
        k = k + 1;
    }
    let g = AlignmentGraph {
        first_set_ids: b.first_set_ids,
        edges: b.edges,
        contained,
        nodes: b.nodes,
        num_tokens: ntok,
    };
    proof {
        lemma_marked(b.built@);
        assert forall|o: int| 0 <= o < n && #[trigger] reached(toks, p, o) implies state_done(
            g.edges@,
            toks,
            p,
            o,
        ) by {
            lemma_built(&b, top as int, o);
        }
        reveal(is_graph);
    }
    g
}

/// The states that are reached have been built.
proof fn lemma_built(b: &Builder<'_, '_, '_>, top: int, o: int)
    requires
        b.wf(top, -1),
        top == kmax(b.needle@.len() as int),
        forall|j: int|
            0 <= j < top && #[trigger] is_entry(b.dict.tokens(), b.needle@, j) ==> b.built@[j],
        0 <= o < b.needle@.len(),
        reached(b.dict.tokens(), b.needle@, o),
    ensures
        b.built@[o],
    decreases o,
{
    let toks = b.dict.tokens();
    let p = b.needle@;
    if is_entry(toks, p, o) {
    } else {
        let q = choose|q: int|
            0 <= q < o && reached(toks, p, q) && #[trigger] steps_to(toks, p, q, o);
        lemma_built(b, top, q);
    }
}

impl<'d, 'n, 'f> Builder<'d, 'n, 'f> {
    /// Adds the entry step of alignment `k`, which `count` tokens can be.
    fn add_entry(&mut self, k: usize, count: usize, ids: &Vec<Token>)
        requires
            old(self).wf(k as int, -1),
            1 <= k < kmax(old(self).needle@.len() as int),
            ids@.len() == MAX_TOKEN_SIZE * SET_CAP,
            count > 0,
            ({
                let all = entering(
                    old(self).dict.tokens(),
                    old(self).needle@,
                    k as int,
                    old(self).dict.tokens().len() as int,
                );
                &&& count == all.len()
                &&& forall|j: int|
                    0 <= j < all.len() && j < SET_CAP ==> #[trigger] ids@[k * SET_CAP + j] == all[j]
            }),
        ensures
            final(self).input() == old(self).input(),
            final(self).built@ == old(self).built@,
            final(self).wf(k + 1, -1),
    {
        let ghost toks = self.dict.tokens();
        let ghost p = self.needle@;
        let ghost n = p.len() as int;
        let ghost sums = self.frequencies.sums();
        let ghost g0 = *self;
        let ghost all = entering(toks, p, k as int, toks.len() as int);
        proof {
            lemma_entering(toks, p, k as int, toks.len() as int);
            assert forall|i: int| 0 <= i < all.len() implies #[trigger] all[i] < sums.len() - 1 by {
                assert(all.contains(all[i]));
            }
        }
        let probe: ProbeSet = if count <= SET_CAP {
            let start: usize = self.first_set_ids.len();
            let mut j: usize = 0;
            while j < count
                invariant
                    j <= count <= SET_CAP,
                    count == all.len(),
                    1 <= k < MAX_TOKEN_SIZE,
                    ids@.len() == MAX_TOKEN_SIZE * SET_CAP,
                    self.input() == g0.input(),
                    self.edges@ == g0.edges@,
                    self.built@ == g0.built@,
                    self.first_set_ids@ == g0.first_set_ids@ + all.take(j as int),
                    forall|i: int|
                        0 <= i < all.len() && i < SET_CAP ==> #[trigger] ids@[k * SET_CAP + i]
                            == all[i],
                decreases count - j,
            {
                let id: Token = ids[k * SET_CAP + j];
                assert(id == all[j as int]);
                assert(all.take(j + 1) =~= all.take(j as int).push(id));
                self.first_set_ids.push(id);
                assert(self.first_set_ids@ =~= g0.first_set_ids@ + all.take(j + 1));
                j = j + 1;
            }
            assert(all.take(count as int) =~= all);
            assert(self.first_set_ids@.subrange(start as int, start + count) =~= all);
            ProbeSet::FirstSet { start: start as u32, len: count as u32 }
        } else {
            ProbeSet::TooBigSet
        };
        let weight: u32 = self.weight_of(probe, Ghost(all));
        let from: u32 = self.nodes.source();
        self.edges.push(Edge { from, to: k as u32, probe, weight });
        proof {
            let edges = self.edges@;
            let before = g0.edges@;
            lemma_more_edges(before, edges, toks, p);
            assert forall|i: int| 0 <= i < edges.len() implies edge_ok(
                #[trigger] edges[i],
                self.first_set_ids@,
                toks,
                p,
                sums,
            ) by {
                if i < before.len() {
                    assert(edges[i] == before[i]);
                    assert(edge_ok(before[i], g0.first_set_ids@, toks, p, sums));
                    if before[i].probe is FirstSet {
                        let start = before[i].probe->start;
                        let len = before[i].probe->len;
                        assert(self.first_set_ids@.subrange(start as int, start + len)
                            =~= g0.first_set_ids@.subrange(start as int, start + len));
                    }
                }
            }
            assert forall|i: int, j: int| 0 <= i < j < edges.len() implies !same_step(
                edges[i],
                edges[j],
            ) by {
                assert(i < before.len() ==> edges[i] == before[i]);
                assert(j < before.len() ==> edges[j] == before[j]);
            }
            assert forall|i: int| 0 <= i < edges.len() implies {
                &&& (#[trigger] edges[i]).probe is Point || edges[i].probe is Range
                    ==> self.built@[edges[i].from as int]
                &&& edges[i].probe is TooBigSet || edges[i].probe is FirstSet ==> edges[i].to < k
                    + 1
            } by {
                if i < before.len() {
                    assert(edges[i] == before[i]);
                }
            }
            assert forall|o: int| 0 <= o < n && #[trigger] self.built@[o] implies reached(
                toks,
                p,
                o,
            ) && state_done(edges, toks, p, o) by {
                assert(g0.built@[o]);
            }
            assert forall|e: int| 1 <= e < k + 1 && e < kmax(n) && #[trigger] is_entry(
                toks,
                p,
                e,
            ) implies has_entry(edges, e) by {
                if e < k {
                    assert(has_entry(before, e));
                } else {
                    assert(enters_at(edges[before.len() as int], e));
                }
            }
        }
    }
}

/// The step out of an offset is the longest token there, or where no token is,
/// one byte under the escape code, 255.
pub proof fn lemma_steps_mean(tokens: Seq<Seq<u8>>, needle: Seq<u8>, o: int, t: Token, len: int)
    ensures
        is_step(tokens, needle, o, t, len) <==> (is_longest(tokens, needle.skip(o), t as int)
            && tokens[t as int].len() == len) || (no_token(tokens, needle.skip(o)) && t == 255 && len
            == 1),
{
}

/// What an edge probes for: one token, the ids from the first of a range to its
/// last, or the listed ids of a set; and an edge that cannot be cut, nothing.
pub proof fn lemma_probes_mean(e: Edge, ids: Seq<Token>, t: int)
    ensures
        e.cuttable() <==> !(e.probe is TooBigSet),
        e.probe is TooBigSet ==> !probes(e, ids, t),
        e.probe matches ProbeSet::Point(id) ==> (probes(e, ids, t) <==> t == id),
        e.probe matches ProbeSet::Range(r) ==> (probes(e, ids, t) <==> r.begin <= t <= r.last),
        e.probe matches ProbeSet::FirstSet { start, len } ==> start + len <= ids.len() ==> (probes(
            e,
            ids,
            t,
        ) <==> exists|j: int| start <= j < start + len && #[trigger] ids[j] == t),
{
    match e.probe {
        ProbeSet::FirstSet { start, len } => {
            if start + len <= ids.len() {
                let part = ids.subrange(start as int, start + len);
                if probes(e, ids, t) {
                    let k = choose|k: int| 0 <= k < part.len() && part[k] == t as Token;
                    assert(ids[start + k] == t);
                }
                if exists|j: int| start <= j < start + len && #[trigger] ids[j] == t {
                    let j = choose|j: int| start <= j < start + len && #[trigger] ids[j] == t;
                    assert(part[j - start] == t as Token);
                }
            }
        },
        _ => {},
    }
}

/// The first-token sets of an alignment: how many tokens end with that much of
/// the needle, and the first 16 of them by ascending id.
pub proof fn lemma_first_sets_mean(
    first: FirstTokens,
    tokens: Seq<Seq<u8>>,
    needle: Seq<u8>,
    k: int,
    j: int,
)
    requires
        tokens.len() <= 65536,
        set_ok(first.count@, first.ids@, tokens, needle, k, tokens.len() as int),
        0 <= j < first.count@[k],
        j < 16,
    ensures
        first.ids@[k * 16 + j] < tokens.len(),
        ends_with(tokens[first.ids@[k * 16 + j] as int], needle.take(k)),
        j > 0 ==> first.ids@[k * 16 + j - 1] < first.ids@[k * 16 + j],
        first.count@[k] <= 16 ==> forall|t: Token|
            t < tokens.len() && #[trigger] ends_with(tokens[t as int], needle.take(k)) ==> exists|
                i: int,
            |
                0 <= i < first.count@[k] && #[trigger] first.ids@[k * 16 + i] == t,
{
    let n = tokens.len() as int;
    let all = entering(tokens, needle, k, n);
    lemma_entering(tokens, needle, k, n);
    assert(SET_CAP == 16);
    assert(first.ids@[k * SET_CAP + j] == all[j]);
    assert(all.contains(all[j]));
    if j > 0 {
        assert(first.ids@[k * SET_CAP + (j - 1)] == all[j - 1]);
        assert(k * 16 + (j - 1) == k * 16 + j - 1);
    }
    if first.count@[k] <= 16 {
        assert forall|t: Token|
            t < tokens.len() && #[trigger] ends_with(tokens[t as int], needle.take(k)) implies exists|
            i: int,
        |
            0 <= i < first.count@[k] && #[trigger] first.ids@[k * 16 + i] == t by {
            assert(all.contains(t));
            let i = choose|i: int| 0 <= i < all.len() && all[i] == t;
            assert(first.ids@[k * SET_CAP + i] == all[i]);
            assert(first.ids@[k * 16 + i] == t);
        }
    }
}

/// The ids that contain the needle are listed ascending, each once, and no
/// others.
pub proof fn lemma_containing_means(ids: Seq<Token>, tokens: Seq<Seq<u8>>, needle: Seq<u8>, t: Token)
    requires
        are_containing(ids, tokens, needle),
    ensures
        ids.contains(t) <==> t < tokens.len() && contains(tokens[t as int], needle),
        forall|i: int, j: int| 0 <= i < j < ids.len() ==> #[trigger] ids[i] < #[trigger] ids[j],
{
}

/// A membership table is as wide as the dictionary, and 256 ids at the least.
pub proof fn lemma_width_means(g: &AlignmentGraph)
    ensures
        g.width() >= 256,
        g.width() >= g.num_tokens,
        g.width() == 256 || g.width() == g.num_tokens,
        g.nodes.total() == g.nodes.needle_len + 1,
{
}

/// Two edges of a graph are not the same step: of the edges that enter at one
/// offset, of the greedy steps out of one, and of the ends out of one, there is
/// one each.
pub proof fn lemma_steps_are_single(
    g: &AlignmentGraph,
    tokens: Seq<Seq<u8>>,
    needle: Seq<u8>,
    sums: Seq<u32>,
    i: int,
    j: int,
)
    requires
        g.of(tokens, needle, sums),
        0 <= i < j < g.edges@.len(),
    ensures
        ({
            let a = g.edges@[i];
            let b = g.edges@[j];
            let enters_a = a.probe is FirstSet || a.probe is TooBigSet;
            let enters_b = b.probe is FirstSet || b.probe is TooBigSet;
            &&& enters_a && enters_b ==> a.to != b.to
            &&& a.probe is Point && b.probe is Point ==> a.from != b.from
            &&& a.probe is Range && b.probe is Range ==> a.from != b.from
        }),
{
    lemma_distinct(g.edges@, g.first_set_ids@, tokens, needle, sums, i, j);
}

} // verus!
