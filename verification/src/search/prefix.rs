//! Token-level prefix search.
//!
//! The needle is tokenized once. Walking a row's codes against it, an equal
//! code advances; the first other one decides: the row matches exactly when
//! that code's token begins with what is left of the needle.

use crate::dictionary::{codes_ok, decode, lemma_decode_concat, lemma_decode_one, start, DictView};
use crate::order::{conformant, lemma_sorted_unique, sized, sorted};
use crate::search::lookup::{is_longest, is_prefix_range, prefix_range};
use crate::search::tokenize::{is_greedy, lemma_first, lemma_greedy_skip, tokenize, tokenizes};
use crate::text::{lemma_prefix_concat, lemma_prefix_transitive, lemma_prefixes_nest, starts_with};
use crate::types::{Token, TokenRange};
use vstd::prelude::*;

verus! {

/// Token-level matcher for prefix search.
pub struct PrefixAutomaton {
    query_tokens: Vec<Token>,
    /// Per query position, the tokens that begin with what is left there.
    intervals: Vec<TokenRange>,
    tokens: Ghost<Seq<Seq<u8>>>,
    prefix: Ghost<Seq<u8>>,
}

/// What a first code says of a row.
pub struct Prefilter {
    /// Lower bound of the accepted codes; `u32::MAX` accepts none.
    pub alo: u32,
    /// Width of the accepted codes: `code - alo <= awidth`, wrapping.
    pub awidth: u32,
    /// The code that calls for a full row check; `u32::MAX` calls for none.
    pub vpoint: u32,
}

impl Prefilter {
    /// `code - alo <= awidth`, wrapping.
    pub open spec fn accepts(&self, code: u32) -> bool {
        (if code >= self.alo {
            code - self.alo
        } else {
            code - self.alo + 0x1_0000_0000
        }) <= self.awidth
    }

    /// Whether any first code can call for a full row check.
    pub fn needs_verify(&self) -> (r: bool)
        ensures
            r == (self.vpoint != u32::MAX),
    {
        self.vpoint != u32::MAX
    }
}

/// The walk of a row's codes against a query's: an equal code advances, the
/// first other one decides by whether its token begins with what is left of
/// the needle, and a query that is used up matches.
pub open spec fn walk_accepts(tokens: Seq<Seq<u8>>, query: Seq<Token>, row: Seq<Token>) -> bool
    decreases query.len(),
{
    if query.len() == 0 {
        true
    } else if row.len() == 0 {
        false
    } else if row[0] == query[0] {
        walk_accepts(tokens, query.skip(1), row.skip(1))
    } else {
        row[0] < tokens.len() && starts_with(tokens[row[0] as int], decode(tokens, query))
    }
}

/// Codes decode to the first token and what the others decode to.
proof fn lemma_head(tokens: Seq<Seq<u8>>, codes: Seq<Token>)
    requires
        codes.len() > 0,
    ensures
        decode(tokens, codes) == tokens[codes[0] as int] + decode(tokens, codes.skip(1)),
{
    assert(codes =~= seq![codes[0]] + codes.skip(1));
    lemma_decode_concat(tokens, seq![codes[0]], codes.skip(1));
    lemma_decode_one(tokens, codes[0]);
}

/// What the first code that leaves the query says of the rest of the row.
proof fn lemma_divergence(tokens: Seq<Seq<u8>>, r: Seq<u8>, u: Seq<u8>, a: int, b: int)
    requires
        sorted(tokens),
        is_longest(tokens, r, a),
        is_longest(tokens, u, b),
        a != b,
    ensures
        starts_with(r, u) <==> starts_with(tokens[a], u),
{
    let tr = tokens[a];
    let tq = tokens[b];
    if starts_with(tr, u) {
        lemma_prefix_transitive(r, u, tr);
    }
    if starts_with(r, u) {
        if tr.len() <= u.len() {
            lemma_prefixes_nest(r, tr, u);
            lemma_prefix_transitive(r, tq, u);
            assert(tr =~= tq) by {
                assert(r.take(tr.len() as int) =~= tr);
                assert(r.take(tq.len() as int) =~= tq);
            }
            lemma_sorted_unique(tokens, a, b);
        } else {
            lemma_prefixes_nest(r, u, tr);
        }
    }
}

/// The first token of greedy codes is the longest that their bytes begin with.
proof fn lemma_longest_first(tokens: Seq<Seq<u8>>, codes: Seq<Token>)
    requires
        is_greedy(tokens, codes),
        codes.len() > 0,
    ensures
        is_longest(tokens, decode(tokens, codes), codes[0] as int),
{
    assert(codes.skip(0) =~= codes);
}

/// On greedily tokenized rows the walk is exact.
proof fn lemma_walk_is_exact(tokens: Seq<Seq<u8>>, query: Seq<Token>, row: Seq<Token>)
    requires
        sorted(tokens),
        sized(tokens),
        is_greedy(tokens, row),
        is_greedy(tokens, query),
    ensures
        walk_accepts(tokens, query, row) == starts_with(
            decode(tokens, row),
            decode(tokens, query),
        ),
    decreases query.len(),
{
    let r = decode(tokens, row);
    let u = decode(tokens, query);
    lemma_first(tokens, row);
    lemma_first(tokens, query);
    if query.len() == 0 {
        assert(r.take(0) =~= u);
    } else if row.len() > 0 {
        lemma_longest_first(tokens, row);
        lemma_longest_first(tokens, query);
        if row[0] == query[0] {
            lemma_greedy_skip(tokens, row, 1);
            lemma_greedy_skip(tokens, query, 1);
            lemma_walk_is_exact(tokens, query.skip(1), row.skip(1));
            lemma_prefix_concat(
                tokens[row[0] as int],
                decode(tokens, row.skip(1)),
                decode(tokens, query.skip(1)),
            );
        } else {
            lemma_divergence(tokens, r, u, row[0] as int, query[0] as int);
        }
    }
}

/// The walk from place `pos` on, where the codes there are equal, is the walk
/// from the next place on.
proof fn lemma_walk_on(tokens: Seq<Seq<u8>>, query: Seq<Token>, row: Seq<Token>, pos: int)
    requires
        0 <= pos < query.len(),
        pos < row.len(),
        row[pos] == query[pos],
    ensures
        walk_accepts(tokens, query.skip(pos), row.skip(pos)) == walk_accepts(
            tokens,
            query.skip(pos + 1),
            row.skip(pos + 1),
        ),
{
    assert(query.skip(pos).skip(1) =~= query.skip(pos + 1));
    assert(row.skip(pos).skip(1) =~= row.skip(pos + 1));
}

impl PrefixAutomaton {
    /// The prefix that the matcher looks for.
    pub closed spec fn prefix(&self) -> Seq<u8> {
        self.prefix@
    }

    /// The tokens of its dictionary.
    pub closed spec fn tokens(&self) -> Seq<Seq<u8>> {
        self.tokens@
    }

    /// The needle's codes.
    pub closed spec fn query(&self) -> Seq<Token> {
        self.query_tokens@
    }

    /// The matcher is that of its prefix and dictionary.
    pub closed spec fn wf(&self) -> bool {
        let t = self.tokens@;
        let q = self.query_tokens@;
        &&& sorted(t)
        &&& sized(t)
        &&& tokenizes(t, q, self.prefix@)
        &&& self.intervals@.len() == q.len()
        &&& forall|i: int|
            0 <= i < q.len() ==> is_prefix_range(
                #[trigger] self.intervals@[i],
                t,
                decode(t, q.skip(i)),
            )
    }

    /// Tokenizes the needle and finds the tokens that may end each position.
    pub fn new(prefix: &[u8], dv: DictView<'_>) -> (r: PrefixAutomaton)
        requires
            dv.wf(),
            conformant(dv.tokens()),
        ensures
            r.wf(),
            r.prefix() == prefix@,
            r.tokens() == dv.tokens(),
            tokenizes(r.tokens(), r.query(), r.prefix()),
    {
        let ghost toks = dv.tokens();
        let query_tokens = tokenize(prefix, dv);
        let ghost q = query_tokens@;
        let mut intervals: Vec<TokenRange> = Vec::new();
        let mut pos: usize = 0;
        let mut i: usize = 0;
        proof {
            assert(q.take(0) =~= Seq::<Token>::empty());
        }
        while i < query_tokens.len()
            invariant
                dv.wf(),
                toks == dv.tokens(),
                conformant(toks),
                q == query_tokens@,
                codes_ok(q, toks.len()),
                decode(toks, q) == prefix@,
                i <= q.len(),
                pos == start(toks, q, i as int),
                pos <= prefix@.len(),
                intervals@.len() == i,
                forall|k: int|
                    0 <= k < i ==> is_prefix_range(
                        #[trigger] intervals@[k],
                        toks,
                        decode(toks, q.skip(k)),
                    ),
            decreases q.len() - i,
        {
            let rest = &prefix[pos..prefix.len()];
            proof {
                assert(q.take(i as int) + q.skip(i as int) =~= q);
                lemma_decode_concat(toks, q.take(i as int), q.skip(i as int));
                assert(rest@ =~= decode(toks, q.skip(i as int)));
                crate::dictionary::lemma_start(toks, q, i as int);
                assert(q[i as int] < toks.len());
            }
            intervals.push(prefix_range(dv, rest));
            pos = pos + dv.token_len(query_tokens[i]);
            i = i + 1;
        }
        PrefixAutomaton { query_tokens, intervals, tokens: Ghost(toks), prefix: Ghost(prefix@) }
    }

    /// Whether the query is empty, so that every row matches.
    pub fn is_empty_query(&self) -> (r: bool)
        requires
            self.wf(),
        ensures
            r == (self.prefix().len() == 0),
            r == (self.query().len() == 0),
    {
        proof {
            lemma_first(self.tokens@, self.query_tokens@);
        }
        self.query_tokens.len() == 0
    }

    /// What a row's first code says, for a query that is not empty.
    ///
    /// A row matches only if its first token begins with the whole needle, in
    /// which case nothing is left to check, or is the query's first, with the
    /// rest of the query to be checked. A query of one token is the whole
    /// needle and needs no check.
    pub fn prefilter(&self) -> (r: Prefilter)
        requires
            self.wf(),
            self.query().len() > 0,
        ensures
            is_prefilter(&r, self),
            self.query().len() > 1 ==> !r.accepts(r.vpoint),
            (forall|c: Token| !#[trigger] r.accepts(c as u32)) ==> r.alo == u32::MAX && r.awidth
                == 0,
            (exists|c: Token| #[trigger] r.accepts(c as u32)) ==> r.alo + r.awidth
                < self.tokens().len(),
    {
        let q0: Token = self.query_tokens[0];
        let iv: TokenRange = self.intervals[0];
        let r = Prefilter {
            alo: if iv.is_empty() {
                u32::MAX
            } else {
                iv.begin as u32
            },
            awidth: if iv.is_empty() {
                0
            } else {
                (iv.last - iv.begin) as u32
            },
            vpoint: if self.query_tokens.len() == 1 {
                u32::MAX
            } else {
                q0 as u32
            },
        };
        proof {
            let q = self.query_tokens@;
            let t = self.tokens@;
            assert(q.skip(0) =~= q);
            assert(is_prefix_range(self.intervals@[0], t, self.prefix@));
            assert forall|c: Token| #[trigger]
                r.accepts(c as u32) <==> c < t.len() && starts_with(t[c as int], self.prefix@) by {
                assert(iv.has(c as int) <==> c < t.len() && starts_with(t[c as int], self.prefix@));
            }
            if !iv.nothing() {
                assert(iv.has(iv.begin as int) && iv.has(iv.last as int));
                assert(r.accepts(iv.begin as u32));
            }
            if q.len() > 1 {
                lemma_first(t, q);
                lemma_greedy_skip(t, q, 1);
                lemma_first(t, q.skip(1));
                assert(r.accepts(q0 as u32) <==> starts_with(t[q0 as int], self.prefix@));
            }
        }
        r
    }

    /// Whether the walk of a row's codes accepts it: where the row is greedily
    /// tokenized, whether the row begins with the prefix.
    pub fn matches(&self, codes: &[Token]) -> (r: bool)
        requires
            self.wf(),
        ensures
            r == walk_accepts(self.tokens(), self.query(), codes@),
            is_greedy(self.tokens(), codes@) ==> r == starts_with(
                decode(self.tokens(), codes@),
                self.prefix(),
            ),
    {
        proof {
            if is_greedy(self.tokens@, codes@) {
                lemma_walk_is_exact(self.tokens@, self.query_tokens@, codes@);
            }
        }
        self.walk(codes)
    }

    fn walk(&self, codes: &[Token]) -> (r: bool)
        requires
            self.wf(),
        ensures
            r == walk_accepts(self.tokens(), self.query(), codes@),
    {
        let ghost t = self.tokens@;
        let ghost q = self.query_tokens@;
        let ghost cs = codes@;
        proof {
            assert(cs.skip(0) =~= cs);
            assert(q.skip(0) =~= q);
        }
        if self.query_tokens.len() == 0 {
            return true;
        }
        let n: usize = self.query_tokens.len();
        let mut pos: usize = 0;
        while pos < codes.len()
            invariant
                t == self.tokens@,
                q == self.query_tokens@,
                cs == codes@,
                n == q.len(),
                self.intervals@.len() == q.len(),
                forall|i: int|
                    0 <= i < q.len() ==> is_prefix_range(
                        #[trigger] self.intervals@[i],
                        t,
                        decode(t, q.skip(i)),
                    ),
                pos <= cs.len(),
                pos < n,
                walk_accepts(t, q, cs) == walk_accepts(
                    t,
                    q.skip(pos as int),
                    cs.skip(pos as int),
                ),
            decreases cs.len() - pos,
        {
            let c: Token = codes[pos];
            if c != self.query_tokens[pos] {
                proof {
                    assert(is_prefix_range(
                        self.intervals@[pos as int],
                        t,
                        decode(t, q.skip(pos as int)),
                    ));
                }
                return self.intervals[pos].contains(c);
            }
            proof {
                lemma_walk_on(t, q, cs, pos as int);
            }
            pos = pos + 1;
            if pos == n {
                return true;
            }
        }
        false
    }
}

/// The prefilter is that of the matcher: it accepts the first codes whose token
/// begins with the whole prefix, and calls for a check at the query's first
/// code where the query has more.
pub open spec fn is_prefilter(f: &Prefilter, a: &PrefixAutomaton) -> bool {
    &&& forall|c: Token| #[trigger]
        f.accepts(c as u32) <==> c < a.tokens().len() && starts_with(
            a.tokens()[c as int],
            a.prefix(),
        )
    &&& f.vpoint == (if a.query().len() == 1 {
        u32::MAX
    } else {
        a.query()[0] as u32
    })
}

/// Whatever a row's codes, an accepted first code decides for it; a row matches
/// only if its first code is accepted or is the one that calls for a check; and
/// some code calls for a check exactly when the prefix tokenizes to more than
/// one token.
pub proof fn lemma_first_code_routes(a: &PrefixAutomaton, f: &Prefilter, codes: Seq<Token>)
    requires
        a.wf(),
        a.query().len() > 0,
        is_prefilter(f, a),
        codes.len() > 0,
    ensures
        f.accepts(codes[0] as u32) ==> walk_accepts(a.tokens(), a.query(), codes),
        walk_accepts(a.tokens(), a.query(), codes) ==> f.accepts(codes[0] as u32) || codes[0] as u32
            == f.vpoint,
        f.vpoint != u32::MAX <==> a.query().len() > 1,
{
    let t = a.tokens();
    let q = a.query();
    let c = codes[0];
    lemma_first(t, q);
    lemma_head(t, q);
    assert(f.accepts(c as u32) <==> c < t.len() && starts_with(t[c as int], a.prefix()));
    assert(q[0] < t.len());
    if c == q[0] {
        let rest = decode(t, q.skip(1));
        if q.len() == 1 {
            assert(q.skip(1) =~= Seq::<Token>::empty());
            assert(a.prefix() =~= t[c as int]);
            assert(t[c as int].take(a.prefix().len() as int) =~= a.prefix());
            assert(walk_accepts(t, q.skip(1), codes.skip(1)));
        } else {
            lemma_head(t, q.skip(1));
            assert(q.skip(1)[0] == q[1]);
            assert(q[1] < t.len());
            assert(t[q[1] as int].len() >= 1);
            assert(a.prefix().len() > t[c as int].len());
        }
    }
}

/// Whatever its first code, a row matches exactly when the code is accepted,
/// or calls for a check that then succeeds.
pub proof fn lemma_first_code_decides(a: &PrefixAutomaton, f: &Prefilter, codes: Seq<Token>)
    requires
        a.wf(),
        a.query().len() > 0,
        is_greedy(a.tokens(), codes),
        codes.len() > 0,
        is_prefilter(f, a),
    ensures
        f.accepts(codes[0] as u32) ==> starts_with(decode(a.tokens(), codes), a.prefix()),
        !f.accepts(codes[0] as u32) && codes[0] as u32 != f.vpoint ==> !starts_with(
            decode(a.tokens(), codes),
            a.prefix(),
        ),
{
    let t = a.tokens();
    let q = a.query();
    lemma_first(t, codes);
    lemma_first(t, q);
    let c = codes[0];
    if f.accepts(c as u32) {
        assert(starts_with(decode(t, codes), t[c as int])) by {
            assert(decode(t, codes).take(t[c as int].len() as int) =~= t[c as int]);
        }
        lemma_prefix_transitive(decode(t, codes), a.prefix(), t[c as int]);
    } else {
        if c != q[0] {
            lemma_longest_first(t, codes);
            lemma_longest_first(t, q);
            lemma_divergence(t, decode(t, codes), decode(t, q), c as int, q[0] as int);
        } else if q.len() == 1 {
            assert(q.skip(1) =~= Seq::<Token>::empty());
            assert(a.prefix() =~= t[c as int]);
            assert(starts_with(t[c as int], a.prefix())) by {
                assert(t[c as int].take(a.prefix().len() as int) =~= a.prefix());
            }
        }
    }
}

/// A first code is accepted just when its distance from the lower bound, modulo
/// two to the 32, is at most the width.
pub proof fn lemma_acceptance_wraps(f: &Prefilter, code: u32)
    ensures
        f.accepts(code) <==> (code - f.alo) % 0x1_0000_0000 <= f.awidth,
{
    if code >= f.alo {
        vstd::arithmetic::div_mod::lemma_small_mod((code - f.alo) as nat, 0x1_0000_0000);
    } else {
        vstd::arithmetic::div_mod::lemma_fundamental_div_mod_converse(
            code - f.alo,
            0x1_0000_0000,
            -1,
            code - f.alo + 0x1_0000_0000,
        );
    }
}

/// A walk accepts just when the row's codes begin with all of the query's, or
/// agree with them up to a code that is another, whose token begins with what
/// the query's codes from there on decode to.
pub proof fn lemma_walk_means(tokens: Seq<Seq<u8>>, query: Seq<Token>, row: Seq<Token>)
    ensures
        walk_accepts(tokens, query, row) <==> (query.len() <= row.len() && row.take(
            query.len() as int,
        ) =~= query) || exists|k: int|
            0 <= k < query.len() && k < row.len() && row.take(k) =~= query.take(k)
                && #[trigger] row[k] != query[k] && row[k] < tokens.len() && starts_with(
                tokens[row[k] as int],
                decode(tokens, query.skip(k)),
            ),
    decreases query.len(),
{
    if query.len() == 0 {
        assert(row.take(0) =~= query);
    } else if row.len() > 0 {
        let q = query.skip(1);
        let r = row.skip(1);
        if row[0] == query[0] {
            lemma_walk_means(tokens, q, r);
            if query.len() <= row.len() {
                if row.take(query.len() as int) =~= query {
                    assert forall|j: int| 0 <= j < q.len() implies r.take(q.len() as int)[j]
                        == q[j] by {
                        assert(row.take(query.len() as int)[j + 1] == query[j + 1]);
                    }
                    assert(r.take(q.len() as int) =~= q);
                }
                if r.take(q.len() as int) =~= q {
                    assert forall|j: int| 0 <= j < query.len() implies row.take(
                        query.len() as int,
                    )[j] == query[j] by {
                        if j > 0 {
                            assert(r.take(q.len() as int)[j - 1] == q[j - 1]);
                        }
                    }
                    assert(row.take(query.len() as int) =~= query);
                }
            }
            let here = exists|k: int|
                0 <= k < query.len() && k < row.len() && row.take(k) =~= query.take(k)
                    && #[trigger] row[k] != query[k] && row[k] < tokens.len() && starts_with(
                    tokens[row[k] as int],
                    decode(tokens, query.skip(k)),
                );
            let there = exists|k: int|
                0 <= k < q.len() && k < r.len() && r.take(k) =~= q.take(k) && #[trigger] r[k]
                    != q[k] && r[k] < tokens.len() && starts_with(
                    tokens[r[k] as int],
                    decode(tokens, q.skip(k)),
                );
            if here {
                let k = choose|k: int|
                    0 <= k < query.len() && k < row.len() && row.take(k) =~= query.take(k)
                        && #[trigger] row[k] != query[k] && row[k] < tokens.len() && starts_with(
                        tokens[row[k] as int],
                        decode(tokens, query.skip(k)),
                    );
                assert(k > 0);
                let l = k - 1;
                assert(r[l] == row[k] && q[l] == query[k]);
                assert forall|j: int| 0 <= j < l implies r.take(l)[j] == q.take(l)[j] by {
                    assert(row.take(k)[j + 1] == query.take(k)[j + 1]);
                }
                assert(r.take(l) =~= q.take(l));
                assert(q.skip(l) =~= query.skip(k));
                assert(there);
            }
            if there {
                let l = choose|k: int|
                    0 <= k < q.len() && k < r.len() && r.take(k) =~= q.take(k) && #[trigger] r[k]
                        != q[k] && r[k] < tokens.len() && starts_with(
                        tokens[r[k] as int],
                        decode(tokens, q.skip(k)),
                    );
                let k = l + 1;
                assert(row[k] == r[l] && query[k] == q[l]);
                assert forall|j: int| 0 <= j < k implies row.take(k)[j] == query.take(k)[j] by {
                    if j > 0 {
                        assert(r.take(l)[j - 1] == q.take(l)[j - 1]);
                    }
                }
                assert(row.take(k) =~= query.take(k));
                assert(q.skip(l) =~= query.skip(k));
                assert(here);
            }
        } else {
            assert(query.skip(0) =~= query);
            assert(row.take(0) =~= query.take(0));
            if query.len() <= row.len() && row.take(query.len() as int) =~= query {
                assert(row.take(query.len() as int)[0] == query[0]);
            }
            if exists|k: int|
                0 <= k < query.len() && k < row.len() && row.take(k) =~= query.take(k)
                    && #[trigger] row[k] != query[k] && row[k] < tokens.len() && starts_with(
                    tokens[row[k] as int],
                    decode(tokens, query.skip(k)),
                ) {
                let k = choose|k: int|
                    0 <= k < query.len() && k < row.len() && row.take(k) =~= query.take(k)
                        && #[trigger] row[k] != query[k] && row[k] < tokens.len() && starts_with(
                        tokens[row[k] as int],
                        decode(tokens, query.skip(k)),
                    );
                if k > 0 {
                    assert(row.take(k)[0] == query.take(k)[0]);
                }
            }
        }
    }
}

} // verus!
