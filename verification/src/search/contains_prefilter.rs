//! A probe cover chosen per alignment, for an approximate scan.
//!
//! For every way that an occurrence can begin in its first token, and for
//! every place where it can end, one probe is chosen: a token of the parse
//! between, the range of tokens that end it, or the tokens that begin it. Any
//! row that contains the pattern holds a probed token, so a scan for them
//! collects a superset of the matching rows.

use crate::dictionary::{codes_ok, decode, lemma_start, locate, start, DictView};
use crate::order::{
    conformant, lemma_less_transitive, lemma_prefix_between, lemma_prefix_not_less,
    lemma_sorted_unique, less, sized, sorted,
};
use crate::rows::{append_all_rows, bounds, delimits, every_row, row_count, selected_rows, Offset};
use crate::search::lookup::{is_longest, is_prefix_range, longest_token, prefix_range};
use crate::search::prefilter::cover::{listed, ProbeCover};
use crate::search::prefilter::graph::{
    are_containing, can_end, contained_tokens, entering, first_tokens, is_entry, kmax,
    lemma_entering, set_ok, FirstTokens, SET_CAP,
};
use crate::search::prefilter::layout::lemma_token_in_needle;
use crate::search::prefilter::scan::avx2::scan_avx2;
use crate::search::prefilter::scan::avx512::scan_avx512;
use crate::search::prefilter::scan::policy::TargetCaps;
use crate::search::prefilter::scan::probe::{
    scan_blocks, BiasedRange, BoundRange, Compare, HitMaterialization, Probe,
};
use crate::search::prefilter::scan::sink::scanned;
use crate::search::prefilter::scan::table::scan_rows_table;
use crate::search::tokenize::{is_greedy, lemma_first, lemma_some_token};
use crate::text::{contains, ends_with, occurs_at, starts_with};
use crate::types::{Token, TokenRange, MAX_TOKENS, MAX_TOKEN_SIZE};
use crate::count::{lemma_count_finite, lemma_count_next, lemma_count_none};
use crate::query::stats::{lemma_occurrences_counted, occurrences};
use vstd::prelude::*;
use vstd::set_lib::set_int_range;

verus! {

/// The frequency of a token, from prefix sums.
pub open spec fn mass(sums: Seq<u64>, t: int) -> int {
    sums[t + 1] - sums[t]
}

/// The summed frequency of a range of tokens.
pub open spec fn range_mass(sums: Seq<u64>, r: TokenRange) -> int {
    sums[r.last + 1] - sums[r.begin as int]
}

/// The summed frequency of a list of tokens.
pub open spec fn list_mass(sums: Seq<u64>, ids: Seq<Token>) -> int
    decreases ids.len(),
{
    if ids.len() == 0 {
        0
    } else {
        list_mass(sums, ids.drop_last()) + mass(sums, ids.last() as int)
    }
}

/// Prefix sums over `n` tokens never decrease.
pub open spec fn sums_ok(sums: Seq<u64>, n: int) -> bool {
    &&& sums.len() == n + 1
    &&& forall|i: int, j: int| 0 <= i <= j < sums.len() ==> #[trigger] sums[i] <= #[trigger] sums[j]
}

proof fn lemma_list_mass(sums: Seq<u64>, n: int, ids: Seq<Token>)
    requires
        sums_ok(sums, n),
        forall|i: int| 0 <= i < ids.len() ==> #[trigger] ids[i] < n,
        forall|i: int, j: int| 0 <= i < j < ids.len() ==> ids[i] < ids[j],
    ensures
        0 <= list_mass(sums, ids) <= u64::MAX,
        ids.len() > 0 ==> list_mass(sums, ids) <= sums[ids.last() + 1],
    decreases ids.len(),
{
    if ids.len() > 0 {
        let rest = ids.drop_last();
        assert forall|i: int| 0 <= i < rest.len() implies #[trigger] rest[i] < n by {
            assert(rest[i] == ids[i]);
        }
        lemma_list_mass(sums, n, rest);
        assert(ids.last() == ids[ids.len() - 1]);
        assert(ids[ids.len() - 1] < n);
        assert(sums[ids.last() as int] <= sums[ids.last() + 1]);
        if rest.len() > 0 {
            assert(rest.last() < ids.last());
            assert(sums[rest.last() + 1] <= sums[ids.last() as int]);
        }
    }
}

/// The parse of the needle from offset `k` on: forced interior tokens, where
/// each begins, and where the token that reaches the needle's end begins.
pub open spec fn is_parse(
    tokens: Seq<Seq<u8>>,
    needle: Seq<u8>,
    k: int,
    interior: Seq<Token>,
    pos: Seq<int>,
) -> bool {
    &&& pos.len() == interior.len() + 1
    &&& pos[0] == k
    &&& forall|i: int| 0 <= i < interior.len() ==> #[trigger] parse_step(tokens, needle, interior, pos, i)
    &&& parse_end(tokens, needle, pos[pos.len() - 1])
}

/// Token `i` of a parse is the longest there, and ends inside the needle.
pub open spec fn parse_step(
    tokens: Seq<Seq<u8>>,
    needle: Seq<u8>,
    interior: Seq<Token>,
    pos: Seq<int>,
    i: int,
) -> bool {
    &&& 0 <= pos[i] < pos[i + 1] < needle.len()
    &&& is_longest(tokens, needle.skip(pos[i]), interior[i] as int)
    &&& pos[i + 1] == pos[i] + tokens[interior[i] as int].len()
}

/// The longest token at `o` reaches the needle's end.
pub open spec fn parse_end(tokens: Seq<Seq<u8>>, needle: Seq<u8>, o: int) -> bool {
    &&& 0 <= o < needle.len()
    &&& exists|t: int| #[trigger]
        is_longest(tokens, needle.skip(o), t) && o + tokens[t].len() == needle.len()
}

/// An occurrence can end in the token at place `i` of a parse.
pub open spec fn is_terminal(
    tokens: Seq<Seq<u8>>,
    needle: Seq<u8>,
    interior: Seq<Token>,
    pos: Seq<int>,
    i: int,
) -> bool {
    &&& 0 <= i <= interior.len()
    &&& i == interior.len() || can_end(tokens, needle, pos[i])
}

/// The first-token set of alignment `k` can be probed for.
pub open spec fn has_set(tokens: Seq<Seq<u8>>, needle: Seq<u8>, k: int) -> bool {
    k >= 1 && entering(tokens, needle, k, tokens.len() as int).len() <= SET_CAP
}

/// What the first-token set of alignment `k` weighs.
pub open spec fn set_mass(tokens: Seq<Seq<u8>>, needle: Seq<u8>, sums: Seq<u64>, k: int) -> int {
    list_mass(sums, entering(tokens, needle, k, tokens.len() as int))
}

/// The lightest of the first `i` interior tokens, and of those the first.
pub open spec fn lightest(sums: Seq<u64>, interior: Seq<Token>, i: int, a: int) -> bool {
    &&& 0 <= a < i
    &&& forall|b: int|
        0 <= b < a ==> mass(sums, interior[a] as int) < mass(sums, #[trigger] interior[b] as int)
    &&& forall|b: int|
        a <= b < i ==> mass(sums, interior[a] as int) <= mass(sums, #[trigger] interior[b] as int)
}

/// Some of the first `i` interior tokens weighs no more than `m`.
pub open spec fn some_as_light(sums: Seq<u64>, interior: Seq<Token>, i: int, m: int) -> bool {
    exists|a: int| 0 <= a < i && mass(sums, #[trigger] interior[a] as int) <= m
}

/// The probe that a terminal contributes: the lightest, where interior tokens
/// come before the range, and the range before the set.
#[derive(Clone, Copy, Debug)]
pub enum Choice {
    /// The interior token at this place of the parse.
    Point(usize),
    /// The range of tokens that end the needle.
    Range,
    /// The first-token set.
    FirstSet,
}

/// `choice` is that of a terminal with `i` interior tokens, a range of mass
/// `range`, and a set of mass `set` if there is one.
pub open spec fn is_choice(
    choice: Choice,
    sums: Seq<u64>,
    interior: Seq<Token>,
    i: int,
    range: int,
    set: Option<int>,
) -> bool {
    match choice {
        Choice::Point(a) => {
            &&& lightest(sums, interior, i, a as int)
            &&& mass(sums, interior[a as int] as int) <= range
            &&& set matches Some(s) ==> mass(sums, interior[a as int] as int) <= s
        },
        Choice::Range => {
            &&& !some_as_light(sums, interior, i, range)
            &&& set matches Some(s) ==> range <= s
        },
        Choice::FirstSet => {
            &&& set matches Some(s) && !some_as_light(sums, interior, i, s) && s < range
        },
    }
}

/// Chooses the probe of a terminal.
fn choose_probe(
    sums: &[u64],
    interior: &Vec<Token>,
    ilen: usize,
    range: u64,
    set: Option<u64>,
    Ghost(n): Ghost<int>,
) -> (choice: Choice)
    requires
        sums_ok(sums@, n),
        ilen <= interior@.len(),
        forall|a: int| 0 <= a < ilen ==> #[trigger] interior@[a] < n,
    ensures
        is_choice(
            choice,
            sums@,
            interior@,
            ilen as int,
            range as int,
            match set {
                Some(s) => Some(s as int),
                None => None,
            },
        ),
{
    let ghost sm = sums@;
    let ghost ts = interior@;
    let mut best: Option<(usize, u64)> = None;
    let mut a: usize = 0;
    while a < ilen
        invariant
            sm == sums@,
            ts == interior@,
            sums_ok(sm, n),
            a <= ilen <= ts.len(),
            forall|b: int| 0 <= b < ilen ==> #[trigger] ts[b] < n,
            best is None <==> a == 0,
            best matches Some((i, m)) ==> lightest(sm, ts, a as int, i as int) && m == mass(
                sm,
                ts[i as int] as int,
            ),
        decreases ilen - a,
    {
        let t: usize = interior[a] as usize;
        assert(ts[a as int] < n);
        assert(sm[t as int] <= sm[t + 1]);
        let count: usize = sums.len();
        assert(t + 1 < count);
        let c: u64 = sums[t + 1] - sums[t];
        match best {
            None => {
                best = Some((a, c));
            },
            Some((i, m)) => {
                if c < m {
                    best = Some((a, c));
                }
            },
        }
        a = a + 1;
    }
    proof {
        if best is None {
            assert(ilen == 0);
        }
    }
    let mut choice: Choice = Choice::Range;
    let mut least: u64 = range;
    match best {
        Some((i, m)) => {
            if m <= range {
                choice = Choice::Point(i);
                least = m;
                assert(mass(sm, ts[i as int] as int) <= range);
            } else {
                assert(!some_as_light(sm, ts, ilen as int, range as int));
            }
        },
        None => {},
    }
    match set {
        Some(s) => {
            if s < least {
                proof {
                    assert(!some_as_light(sm, ts, ilen as int, s as int)) by {
                        if some_as_light(sm, ts, ilen as int, s as int) {
                            let b = choose|b: int|
                                0 <= b < ilen && mass(sm, #[trigger] ts[b] as int) <= s;
                            if best is Some {
                                let i = (best->0).0 as int;
                                assert(mass(sm, ts[i] as int) <= mass(sm, ts[b] as int)) by {
                                    if b < i {
                                        assert(mass(sm, ts[i] as int) < mass(sm, ts[b] as int));
                                    }
                                }
                            }
                        }
                    }
                }
                return Choice::FirstSet;
            }
        },
        None => {},
    }
    choice
}

/// One probe: a token to compare with, or a range of tokens.
#[derive(Clone, Copy, Debug)]
pub enum IdProbe {
    Point(Token),
    Range(TokenRange),
}

impl IdProbe {
    /// The probe catches token `t`.
    pub open spec fn catches(self, t: int) -> bool {
        match self {
            IdProbe::Point(id) => t == id,
            IdProbe::Range(r) => r.has(t),
        }
    }
}

/// A terminal contributes the probe.
pub open spec fn probed_by(
    tokens: Seq<Seq<u8>>,
    needle: Seq<u8>,
    sums: Seq<u64>,
    k: int,
    interior: Seq<Token>,
    pos: Seq<int>,
    i: int,
    p: IdProbe,
) -> bool {
    exists|choice: Choice, range: TokenRange| #[trigger]
        terminal_choice(tokens, needle, sums, k, interior, pos, i, choice, range)
            && #[trigger] choice_gives(tokens, needle, k, interior, choice, range, p)
}

/// The choice of a terminal, and the range of tokens that end the needle there.
pub open spec fn terminal_choice(
    tokens: Seq<Seq<u8>>,
    needle: Seq<u8>,
    sums: Seq<u64>,
    k: int,
    interior: Seq<Token>,
    pos: Seq<int>,
    i: int,
    choice: Choice,
    range: TokenRange,
) -> bool {
    &&& !range.nothing()
    &&& is_prefix_range(range, tokens, needle.skip(pos[i]))
    &&& is_choice(
        choice,
        sums,
        interior,
        i,
        range_mass(sums, range),
        if has_set(tokens, needle, k) {
            Some(set_mass(tokens, needle, sums, k))
        } else {
            None
        },
    )
}

/// The choice gives the probe: the interior token and each token of the set as
/// a point, the range as a range.
pub open spec fn choice_gives(
    tokens: Seq<Seq<u8>>,
    needle: Seq<u8>,
    k: int,
    interior: Seq<Token>,
    choice: Choice,
    range: TokenRange,
    p: IdProbe,
) -> bool {
    match choice {
        Choice::Point(a) => p == IdProbe::Point(interior[a as int]),
        Choice::Range => p == IdProbe::Range(range),
        Choice::FirstSet => p is Point && p->Point_0 < tokens.len() && ends_with(
            tokens[p->Point_0 as int],
            needle.take(k),
        ),
    }
}

/// One parse of the needle for a first-token alignment.
struct Parse {
    /// Bytes of the needle absorbed into the first token's tail.
    k: usize,
    /// Forced interior tokens, exact greedy matches strictly inside the needle.
    interior: Vec<Token>,
    /// Where each interior token begins, and the token that reaches the end.
    pos: Vec<usize>,
}

/// The offsets of a parse as numbers.
spec fn offsets_of(pos: Seq<usize>) -> Seq<int> {
    Seq::new(pos.len(), |i: int| pos[i] as int)
}

impl Parse {
    spec fn of(&self, tokens: Seq<Seq<u8>>, needle: Seq<u8>, k: int) -> bool {
        &&& self.k == k
        &&& is_parse(tokens, needle, k, self.interior@, offsets_of(self.pos@))
    }
}

/// Builds the parse for alignment `k`.
fn build_parse(dict: DictView<'_>, needle: &[u8], k: usize) -> (r: Parse)
    requires
        dict.wf(),
        conformant(dict.tokens()),
        k < needle@.len(),
    ensures
        r.of(dict.tokens(), needle@, k as int),
{
    let ghost toks = dict.tokens();
    let ghost nd = needle@;
    let n: usize = needle.len();
    let mut interior: Vec<Token> = Vec::new();
    let mut pos: Vec<usize> = Vec::new();
    pos.push(k);
    let mut p: usize = k;
    loop
        invariant
            dict.wf(),
            toks == dict.tokens(),
            conformant(toks),
            nd == needle@,
            n == nd.len(),
            p < n,
            pos@.len() == interior@.len() + 1,
            pos@[0] == k,
            pos@[pos@.len() - 1] == p,
            forall|i: int|
                0 <= i < interior@.len() ==> #[trigger] parse_step(
                    toks,
                    nd,
                    interior@,
                    offsets_of(pos@),
                    i,
                ),
        decreases n - p,
    {
        let rest = &needle[p..n];
        assert(rest@ =~= nd.skip(p as int));
        match longest_token(dict, rest) {
            Some((t, len)) => {
                if len == n - p {
                    proof {
                        let o = offsets_of(pos@);
                        assert(parse_end(toks, nd, p as int)) by {
                            assert(is_longest(toks, nd.skip(p as int), t as int));
                        }
                        assert(o[o.len() - 1] == p);
                    }
                    return Parse { k, interior, pos };
                }
                let ghost in0 = interior@;
                let ghost pos0 = pos@;
                interior.push(t);
                p = p + len;
                pos.push(p);
                proof {
                    let o = offsets_of(pos@);
                    let o0 = offsets_of(pos0);
                    assert forall|i: int| 0 <= i < interior@.len() implies #[trigger] parse_step(
                        toks,
                        nd,
                        interior@,
                        o,
                        i,
                    ) by {
                        if i < in0.len() {
                            assert(parse_step(toks, nd, in0, o0, i));
                            assert(o[i] == o0[i] && o[i + 1] == o0[i + 1]);
                            assert(interior@[i] == in0[i]);
                        }
                    }
                }
            },
            None => {
                proof {
                    lemma_some_token(toks, rest@);
                }
                return Parse { k, interior, pos };
            },
        }
    }
}

/// `a` comes before `b`.
pub open spec fn range_before(a: TokenRange, b: TokenRange) -> bool {
    a.begin < b.begin || (a.begin == b.begin && a.last < b.last)
}

/// Ranges in order, each once.
pub open spec fn ranges_sorted(s: Seq<TokenRange>) -> bool {
    forall|i: int, j: int| 0 <= i < j < s.len() ==> range_before(s[i], s[j])
}

/// Adds a range to a sorted list, unless it is there.
fn insert_range(ranges: &mut Vec<TokenRange>, r: TokenRange)
    requires
        ranges_sorted(old(ranges)@),
    ensures
        ranges_sorted(final(ranges)@),
        forall|x: TokenRange| #[trigger]
            final(ranges)@.contains(x) <==> old(ranges)@.contains(x) || x == r,
{
    let ghost before = ranges@;
    let mut at: usize = 0;
    while at < ranges.len() && (ranges[at].begin < r.begin || (ranges[at].begin == r.begin
        && ranges[at].last < r.last))
        invariant
            ranges@ == before,
            at <= before.len(),
            forall|i: int| 0 <= i < at ==> range_before(#[trigger] before[i], r),
        decreases before.len() - at,
    {
        at = at + 1;
    }
    if at < ranges.len() && ranges[at].begin == r.begin && ranges[at].last == r.last {
        assert(before[at as int] == r);
        return;
    }
    ranges.insert(at, r);
    proof {
        let now = ranges@;
        assert(now == before.insert(at as int, r));
        assert forall|i: int, j: int| 0 <= i < j < now.len() implies range_before(now[i], now[j]) by {
            if i < at {
                assert(now[i] == before[i]);
            } else if i > at {
                assert(now[i] == before[i - 1]);
            }
            if j < at {
                assert(now[j] == before[j]);
            } else if j > at {
                assert(now[j] == before[j - 1]);
                if at < before.len() && j - 1 > at {
                    assert(range_before(before[at as int], before[j - 1]));
                }
            }
        }
        assert forall|x: TokenRange| #[trigger] now.contains(x) <==> before.contains(x) || x == r by {
            if before.contains(x) {
                let i = choose|i: int| 0 <= i < before.len() && before[i] == x;
                if i < at {
                    assert(now[i] == x);
                } else {
                    assert(now[i + 1] == x);
                }
            }
            assert(now[at as int] == r);
            if now.contains(x) {
                let i = choose|i: int| 0 <= i < now.len() && now[i] == x;
                if i < at {
                    assert(before[i] == x);
                } else if i > at {
                    assert(before[i - 1] == x);
                }
            }
        }
    }
}

/// The probes gathered so far.
struct Probes {
    marks: Vec<bool>,
    ranges: Vec<TokenRange>,
}

impl Probes {
    spec fn has(&self, p: IdProbe) -> bool {
        match p {
            IdProbe::Point(t) => t < self.marks@.len() && self.marks@[t as int],
            IdProbe::Range(r) => self.ranges@.contains(r),
        }
    }

    spec fn wf(&self, n: int) -> bool {
        &&& self.marks@.len() == n
        &&& ranges_sorted(self.ranges@)
        &&& forall|r: TokenRange| #[trigger] self.ranges@.contains(r) ==> !r.nothing() && r.last < n
    }

    fn mark(&mut self, t: Token)
        requires
            old(self).wf(old(self).marks@.len() as int),
            t < old(self).marks@.len(),
        ensures
            final(self).wf(old(self).marks@.len() as int),
            forall|p: IdProbe| #[trigger]
                final(self).has(p) <==> old(self).has(p) || p == IdProbe::Point(t),
    {
        self.marks.set(t as usize, true);
    }

    fn add_range(&mut self, r: TokenRange)
        requires
            old(self).wf(old(self).marks@.len() as int),
            !r.nothing(),
            r.last < old(self).marks@.len(),
        ensures
            final(self).wf(old(self).marks@.len() as int),
            forall|p: IdProbe| #[trigger]
                final(self).has(p) <==> old(self).has(p) || p == IdProbe::Range(r),
    {
        insert_range(&mut self.ranges, r);
    }
}

/// Of two non-empty prefix ranges of one prefix both are the same.
proof fn lemma_range_unique(tokens: Seq<Seq<u8>>, prefix: Seq<u8>, a: TokenRange, b: TokenRange)
    requires
        is_prefix_range(a, tokens, prefix),
        is_prefix_range(b, tokens, prefix),
        !a.nothing(),
        !b.nothing(),
    ensures
        a == b,
{
    assert(a.has(a.begin as int) && a.has(a.last as int));
    assert(b.has(b.begin as int) && b.has(b.last as int));
    assert(b.has(a.begin as int) && b.has(a.last as int));
    assert(a.has(b.begin as int) && a.has(b.last as int));
}

/// A terminal has one choice.
proof fn lemma_choice_unique(
    a: Choice,
    b: Choice,
    sums: Seq<u64>,
    interior: Seq<Token>,
    i: int,
    range: int,
    set: Option<int>,
)
    requires
        is_choice(a, sums, interior, i, range, set),
        is_choice(b, sums, interior, i, range, set),
    ensures
        a == b,
{
    match a {
        Choice::Point(x) => {
            assert(mass(sums, interior[x as int] as int) <= mass(sums, interior[x as int] as int));
            match b {
                Choice::Point(y) => {
                    if x < y {
                        assert(mass(sums, interior[y as int] as int) < mass(
                            sums,
                            interior[x as int] as int,
                        ));
                        assert(mass(sums, interior[x as int] as int) <= mass(
                            sums,
                            interior[y as int] as int,
                        ));
                    } else if y < x {
                        assert(mass(sums, interior[x as int] as int) < mass(
                            sums,
                            interior[y as int] as int,
                        ));
                        assert(mass(sums, interior[y as int] as int) <= mass(
                            sums,
                            interior[x as int] as int,
                        ));
                    }
                },
                Choice::Range => {
                    assert(some_as_light(sums, interior, i, range));
                },
                Choice::FirstSet => {
                    assert(some_as_light(sums, interior, i, set->0));
                },
            }
        },
        _ => {
            match b {
                Choice::Point(y) => {
                    assert(mass(sums, interior[y as int] as int) <= range);
                    assert(some_as_light(sums, interior, i, range));
                    if set is Some {
                        assert(some_as_light(sums, interior, i, set->0));
                    }
                },
                _ => {},
            }
        },
    }
}

/// There is one parse from an offset.
proof fn lemma_parse_prefix(
    tokens: Seq<Seq<u8>>,
    needle: Seq<u8>,
    k: int,
    in1: Seq<Token>,
    pos1: Seq<int>,
    in2: Seq<Token>,
    pos2: Seq<int>,
    i: int,
)
    requires
        conformant(tokens),
        is_parse(tokens, needle, k, in1, pos1),
        is_parse(tokens, needle, k, in2, pos2),
        0 <= i <= in1.len(),
    ensures
        i <= in2.len(),
        pos1[i] == pos2[i],
        forall|j: int| 0 <= j < i ==> #[trigger] in1[j] == in2[j] && pos1[j] == pos2[j],
    decreases i,
{
    if i > 0 {
        lemma_parse_prefix(tokens, needle, k, in1, pos1, in2, pos2, i - 1);
        let j = i - 1;
        assert(parse_step(tokens, needle, in1, pos1, j));
        let rest = needle.skip(pos1[j]);
        let t = in1[j] as int;
        if j == in2.len() {
            assert(parse_end(tokens, needle, pos2[j]));
            let u = choose|u: int| #[trigger]
                is_longest(tokens, needle.skip(pos2[j]), u) && pos2[j] + tokens[u].len()
                    == needle.len();
            assert(starts_with(rest, tokens[u]) && starts_with(rest, tokens[t]));
            assert(tokens[u].len() <= tokens[t].len());
        } else {
            assert(parse_step(tokens, needle, in2, pos2, j));
            let u = in2[j] as int;
            assert(starts_with(rest, tokens[u]) && starts_with(rest, tokens[t]));
            assert(tokens[u].len() == tokens[t].len());
            assert(tokens[u] =~= tokens[t]) by {
                assert(rest.take(tokens[u].len() as int) =~= tokens[u]);
                assert(rest.take(tokens[t].len() as int) =~= tokens[t]);
            }
            lemma_sorted_unique(tokens, t, u);
        }
    }
}

proof fn lemma_parse_unique(
    tokens: Seq<Seq<u8>>,
    needle: Seq<u8>,
    k: int,
    in1: Seq<Token>,
    pos1: Seq<int>,
    in2: Seq<Token>,
    pos2: Seq<int>,
)
    requires
        conformant(tokens),
        is_parse(tokens, needle, k, in1, pos1),
        is_parse(tokens, needle, k, in2, pos2),
    ensures
        in1 == in2,
        pos1 == pos2,
{
    lemma_parse_prefix(tokens, needle, k, in1, pos1, in2, pos2, in1.len() as int);
    lemma_parse_prefix(tokens, needle, k, in2, pos2, in1, pos1, in2.len() as int);
    assert(in1 =~= in2);
    assert forall|i: int| 0 <= i < pos1.len() implies pos1[i] == pos2[i] by {
        if i < in1.len() {
            assert(in1[i] == in2[i]);
        }
    }
    assert(pos1 =~= pos2);
}

/// What holds of the inputs of a compilation.
spec fn compiles(dict: DictView<'_>, needle: Seq<u8>, sums: Seq<u64>, first: FirstTokens) -> bool {
    let toks = dict.tokens();
    &&& dict.wf()
    &&& conformant(toks)
    &&& needle.len() > 0
    &&& sums_ok(sums, toks.len() as int)
    &&& first.count@.len() == MAX_TOKEN_SIZE
    &&& first.ids@.len() == MAX_TOKEN_SIZE * SET_CAP
    &&& forall|k: int|
        1 <= k < kmax(needle.len() as int) ==> #[trigger] set_ok(
            first.count@,
            first.ids@,
            toks,
            needle,
            k,
            toks.len() as int,
        )
}

/// The mass of a first-token set, where it can be probed for.
fn mass_of_set(
    dict: DictView<'_>,
    needle: &[u8],
    sums: &[u64],
    first: &FirstTokens,
    k: usize,
) -> (r: Option<u64>)
    requires
        compiles(dict, needle@, sums@, *first),
        k < kmax(needle@.len() as int),
    ensures
        r is Some <==> has_set(dict.tokens(), needle@, k as int),
        r matches Some(m) ==> m == set_mass(dict.tokens(), needle@, sums@, k as int),
{
    if k == 0 {
        return None;
    }
    let ghost toks = dict.tokens();
    let ghost all = entering(toks, needle@, k as int, toks.len() as int);
    assert(set_ok(first.count@, first.ids@, toks, needle@, k as int, toks.len() as int));
    let count: usize = first.count[k];
    if count > SET_CAP {
        return None;
    }
    proof {
        lemma_entering(toks, needle@, k as int, toks.len() as int);
        assert forall|i: int| 0 <= i < all.len() implies #[trigger] all[i] < toks.len() by {
            assert(all.contains(all[i]));
        }
    }
    let slots: usize = sums.len();
    let mut sum: u64 = 0;
    let mut j: usize = 0;
    while j < count
        invariant
            1 <= k < MAX_TOKEN_SIZE,
            j <= count <= SET_CAP,
            count == all.len(),
            slots == sums@.len(),
            sums_ok(sums@, toks.len() as int),
            first.ids@.len() == MAX_TOKEN_SIZE * SET_CAP,
            set_ok(first.count@, first.ids@, toks, needle@, k as int, toks.len() as int),
            all == entering(toks, needle@, k as int, toks.len() as int),
            forall|i: int| 0 <= i < all.len() ==> #[trigger] all[i] < toks.len(),
            forall|a: int, b: int| 0 <= a < b < all.len() ==> all[a] < all[b],
            sum == list_mass(sums@, all.take(j as int)),
        decreases count - j,
    {
        let t: usize = first.ids[k * SET_CAP + j] as usize;
        proof {
            assert(t == all[j as int]);
            assert(all[j as int] < toks.len());
            assert(sums@[t as int] <= sums@[t + 1]);
            let next = all.take(j + 1);
            assert(next.drop_last() =~= all.take(j as int));
            assert(next.last() == t);
            assert forall|i: int| 0 <= i < next.len() implies #[trigger] next[i] < toks.len() by {
                assert(next[i] == all[i]);
            }
            lemma_list_mass(sums@, toks.len() as int, next);
        }
        sum = sum + (sums[t + 1] - sums[t]);
        j = j + 1;
    }
    assert(all.take(count as int) =~= all);
    Some(sum)
}

impl Probes {
    /// Adds the probe of the terminal at place `i` of a parse.
    #[verifier::spinoff_prover]
    #[verifier::rlimit(40)]
    fn add_terminal(
        &mut self,
        dict: DictView<'_>,
        needle: &[u8],
        sums: &[u64],
        first: &FirstTokens,
        parse: &Parse,
        i: usize,
        range: TokenRange,
        set: Option<u64>,
    )
        requires
            compiles(dict, needle@, sums@, *first),
            old(self).wf(dict.tokens().len() as int),
            parse.k < kmax(needle@.len() as int),
            parse.of(dict.tokens(), needle@, parse.k as int),
            i <= parse.interior@.len(),
            !range.nothing(),
            is_prefix_range(range, dict.tokens(), needle@.skip(parse.pos@[i as int] as int)),
            set is Some <==> has_set(dict.tokens(), needle@, parse.k as int),
            set matches Some(m) ==> m == set_mass(
                dict.tokens(),
                needle@,
                sums@,
                parse.k as int,
            ),
        ensures
            final(self).wf(dict.tokens().len() as int),
            forall|p: IdProbe| #[trigger]
                final(self).has(p) <==> old(self).has(p) || probed_by(
                    dict.tokens(),
                    needle@,
                    sums@,
                    parse.k as int,
                    parse.interior@,
                    offsets_of(parse.pos@),
                    i as int,
                    p,
                ),
    {
        let ghost toks = dict.tokens();
        let ghost n = toks.len() as int;
        let ghost nd = needle@;
        let ghost k = parse.k as int;
        let ghost ts = parse.interior@;
        let ghost pos = offsets_of(parse.pos@);
        let ghost before = *self;
        proof {
            assert forall|a: int| 0 <= a < ts.len() implies #[trigger] ts[a] < n by {
                assert(parse_step(toks, nd, ts, pos, a));
            }
            assert(range.has(range.last as int));
            assert(sums@[range.begin as int] <= sums@[range.last + 1]);
        }
        let slots: usize = sums.len();
        assert(range.last + 1 < slots);
        let weight: u64 = sums[range.last as usize + 1] - sums[range.begin as usize];
        let choice = choose_probe(sums, &parse.interior, i, weight, set, Ghost(n));
        proof {
            assert(terminal_choice(toks, nd, sums@, k, ts, pos, i as int, choice, range));
            assert forall|p: IdProbe| #[trigger]
                probed_by(toks, nd, sums@, k, ts, pos, i as int, p) <==> choice_gives(
                    toks,
                    nd,
                    k,
                    ts,
                    choice,
                    range,
                    p,
                ) by {
                if probed_by(toks, nd, sums@, k, ts, pos, i as int, p) {
                    let (c, r) = choose|c: Choice, r: TokenRange| #[trigger]
                        terminal_choice(toks, nd, sums@, k, ts, pos, i as int, c, r)
                            && #[trigger] choice_gives(toks, nd, k, ts, c, r, p);
                    lemma_range_unique(toks, nd.skip(pos[i as int]), r, range);
                    lemma_choice_unique(
                        c,
                        choice,
                        sums@,
                        ts,
                        i as int,
                        range_mass(sums@, range),
                        if has_set(toks, nd, k) {
                            Some(set_mass(toks, nd, sums@, k))
                        } else {
                            None
                        },
                    );
                }
            }
        }
        match choice {
            Choice::Point(a) => {
                let t: Token = parse.interior[a];
                assert(ts[a as int] < n);
                self.mark(t);
            },
            Choice::Range => {
                self.add_range(range);
            },
            Choice::FirstSet => {
                let ghost all = entering(toks, nd, k, n);
                assert(set_ok(first.count@, first.ids@, toks, nd, k, n));
                proof {
                    lemma_entering(toks, nd, k, n);
                }
                let count: usize = first.count[parse.k];
                let mut j: usize = 0;
                while j < count
                    invariant
                        n == toks.len(),
                        1 <= k < MAX_TOKEN_SIZE,
                        k == parse.k,
                        j <= count <= SET_CAP,
                        count == all.len(),
                        all == entering(toks, nd, k, n),
                        first.ids@.len() == MAX_TOKEN_SIZE * SET_CAP,
                        set_ok(first.count@, first.ids@, toks, nd, k, n),
                        forall|t: Token| #[trigger]
                            all.contains(t) <==> t < n && ends_with(toks[t as int], nd.take(k)),
                        self.wf(n),
                        forall|p: IdProbe| #[trigger]
                            self.has(p) <==> before.has(p) || exists|q: int|
                                0 <= q < j && p == IdProbe::Point(#[trigger] all[q]),
                    decreases count - j,
                {
                    let id: Token = first.ids[parse.k * SET_CAP + j];
                    let ghost was = *self;
                    assert(id == all[j as int]);
                    assert(all.contains(id));
                    self.mark(id);
                    proof {
                        assert forall|p: IdProbe| #[trigger] self.has(p) <==> before.has(p) || exists|
                            q: int,
                        |
                            0 <= q < j + 1 && p == IdProbe::Point(#[trigger] all[q]) by {
                            assert(was.has(p) <==> before.has(p) || exists|q: int|
                                0 <= q < j && p == IdProbe::Point(#[trigger] all[q]));
                        }
                    }
                    j = j + 1;
                }
                proof {
                    assert forall|p: IdProbe| #[trigger] self.has(p) <==> before.has(p) || choice_gives(
                        toks,
                        nd,
                        k,
                        ts,
                        choice,
                        range,
                        p,
                    ) by {
                        if choice_gives(toks, nd, k, ts, choice, range, p) {
                            let t = p->Point_0;
                            assert(all.contains(t));
                            let q = choose|q: int| 0 <= q < all.len() && all[q] == t;
                            assert(p == IdProbe::Point(all[q]));
                        }
                        if exists|q: int| 0 <= q < count && p == IdProbe::Point(#[trigger] all[q]) {
                            let q = choose|q: int|
                                0 <= q < count && p == IdProbe::Point(#[trigger] all[q]);
                            assert(all.contains(all[q]));
                        }
                    }
                }
            },
        }
    }
}

/// Alignment `k` contributes the probe.
pub open spec fn probed_at(
    tokens: Seq<Seq<u8>>,
    needle: Seq<u8>,
    sums: Seq<u64>,
    k: int,
    p: IdProbe,
) -> bool {
    is_entry(tokens, needle, k) && exists|interior: Seq<Token>, pos: Seq<int>, i: int|
        is_terminal(tokens, needle, interior, pos, i) && #[trigger] is_parse(
            tokens,
            needle,
            k,
            interior,
            pos,
        ) && #[trigger] probed_by(tokens, needle, sums, k, interior, pos, i, p)
}

/// Some alignment below `top` contributes the probe.
pub open spec fn probed_upto(
    tokens: Seq<Seq<u8>>,
    needle: Seq<u8>,
    sums: Seq<u64>,
    top: int,
    p: IdProbe,
) -> bool {
    exists|k: int| 0 <= k < top && #[trigger] probed_at(tokens, needle, sums, k, p)
}

/// The probes: each token that contains the whole needle as a point, and one
/// choice for each terminal of each alignment that can occur.
pub open spec fn is_probe(tokens: Seq<Seq<u8>>, needle: Seq<u8>, sums: Seq<u64>, p: IdProbe) -> bool {
    ||| p is Point && p->Point_0 < tokens.len() && contains(tokens[p->Point_0 as int], needle)
    ||| probed_upto(tokens, needle, sums, kmax(needle.len() as int), p)
}

impl Probes {
    /// Adds the probes of one alignment.
    #[verifier::spinoff_prover]
    #[verifier::rlimit(40)]
    fn add_alignment(
        &mut self,
        dict: DictView<'_>,
        needle: &[u8],
        sums: &[u64],
        first: &FirstTokens,
        k: usize,
    )
        requires
            compiles(dict, needle@, sums@, *first),
            old(self).wf(dict.tokens().len() as int),
            k < kmax(needle@.len() as int),
            is_entry(dict.tokens(), needle@, k as int),
        ensures
            final(self).wf(dict.tokens().len() as int),
            forall|p: IdProbe| #[trigger]
                final(self).has(p) <==> old(self).has(p) || probed_at(
                    dict.tokens(),
                    needle@,
                    sums@,
                    k as int,
                    p,
                ),
    {
        let ghost toks = dict.tokens();
        let ghost nd = needle@;
        let ghost before = *self;
        let n: usize = needle.len();
        let parse = build_parse(dict, needle, k);
        let ghost ts = parse.interior@;
        let ghost pos = offsets_of(parse.pos@);
        let set = mass_of_set(dict, needle, sums, first, k);
        let ghost m = ts.len();
        let places: usize = parse.pos.len();
        let mut i: usize = 0;
        while i < places
            invariant
                compiles(dict, nd, sums@, *first),
                nd == needle@,
                toks == dict.tokens(),
                n == nd.len(),
                self.wf(toks.len() as int),
                k < kmax(n as int),
                parse.of(toks, nd, k as int),
                ts == parse.interior@,
                pos == offsets_of(parse.pos@),
                m == ts.len(),
                places == m + 1,
                i <= places,
                set is Some <==> has_set(toks, nd, k as int),
                set matches Some(w) ==> w == set_mass(toks, nd, sums@, k as int),
                forall|p: IdProbe| #[trigger]
                    self.has(p) <==> before.has(p) || exists|j: int|
                        0 <= j < i && is_terminal(toks, nd, ts, pos, j) && #[trigger] probed_by(
                            toks,
                            nd,
                            sums@,
                            k as int,
                            ts,
                            pos,
                            j,
                            p,
                        ),
            decreases places - i,
        {
            let ghost was = *self;
            let o: usize = parse.pos[i];
            proof {
                assert(pos[i as int] == o);
                if i < m {
                    assert(parse_step(toks, nd, ts, pos, i as int));
                } else {
                    assert(parse_end(toks, nd, pos[pos.len() - 1]));
                }
            }
            let suffix = &needle[o..n];
            assert(suffix@ =~= nd.skip(o as int));
            let range = prefix_range(dict, suffix);
            proof {
                lemma_terminal_range(toks, nd, ts, pos, k as int, i as int, range);
            }
            if !range.is_empty() {
                self.add_terminal(dict, needle, sums, first, &parse, i, range, set);
            }
            proof {
                assert forall|p: IdProbe| #[trigger] self.has(p) <==> before.has(p) || exists|j: int|
                    0 <= j < i + 1 && is_terminal(toks, nd, ts, pos, j) && #[trigger] probed_by(
                        toks,
                        nd,
                        sums@,
                        k as int,
                        ts,
                        pos,
                        j,
                        p,
                    ) by {
                    assert(was.has(p) <==> before.has(p) || exists|j: int|
                        0 <= j < i && is_terminal(toks, nd, ts, pos, j) && #[trigger] probed_by(
                            toks,
                            nd,
                            sums@,
                            k as int,
                            ts,
                            pos,
                            j,
                            p,
                        ));
                }
            }
            i = i + 1;
        }
        proof {
            assert forall|p: IdProbe| #[trigger] self.has(p) <==> before.has(p) || probed_at(
                toks,
                nd,
                sums@,
                k as int,
                p,
            ) by {
                if probed_at(toks, nd, sums@, k as int, p) {
                    let (in2, pos2, j) = choose|in2: Seq<Token>, pos2: Seq<int>, j: int|
                        is_terminal(toks, nd, in2, pos2, j) && #[trigger] is_parse(
                            toks,
                            nd,
                            k as int,
                            in2,
                            pos2,
                        ) && #[trigger] probed_by(toks, nd, sums@, k as int, in2, pos2, j, p);
                    lemma_parse_unique(toks, nd, k as int, in2, pos2, ts, pos);
                    assert(probed_by(toks, nd, sums@, k as int, ts, pos, j, p));
                }
                if exists|j: int|
                    0 <= j < m + 1 && is_terminal(toks, nd, ts, pos, j) && #[trigger] probed_by(
                        toks,
                        nd,
                        sums@,
                        k as int,
                        ts,
                        pos,
                        j,
                        p,
                    ) {
                    assert(is_parse(toks, nd, k as int, ts, pos));
                }
            }
        }
    }
}

/// A place of a parse is a terminal just where some token ends the needle.
proof fn lemma_terminal_range(
    tokens: Seq<Seq<u8>>,
    needle: Seq<u8>,
    interior: Seq<Token>,
    pos: Seq<int>,
    k: int,
    i: int,
    range: TokenRange,
)
    requires
        is_parse(tokens, needle, k, interior, pos),
        0 <= i <= interior.len(),
        is_prefix_range(range, tokens, needle.skip(pos[i])),
    ensures
        !range.nothing() <==> is_terminal(tokens, needle, interior, pos, i),
{
    if i == interior.len() {
        assert(parse_end(tokens, needle, pos[pos.len() - 1]));
        let rest = needle.skip(pos[i]);
        let t = choose|t: int| #[trigger]
            is_longest(tokens, rest, t) && pos[i] + tokens[t].len() == needle.len();
        assert(tokens[t] =~= rest) by {
            assert(rest.take(tokens[t].len() as int) =~= tokens[t]);
        }
        assert(starts_with(tokens[t], rest)) by {
            assert(tokens[t].take(rest.len() as int) =~= rest);
        }
        assert(range.has(t));
    } else {
        if !range.nothing() {
            assert(range.has(range.begin as int));
        }
        if can_end(tokens, needle, pos[i]) {
            let t = choose|t: int|
                0 <= t < tokens.len() && starts_with(#[trigger] tokens[t], needle.skip(pos[i]));
            assert(range.has(t));
        }
    }
}

/// A needle prepared for substring prefiltering: a sound probe cover over the
/// dictionary. Built once, then shared across scans; holds no scan state.
#[derive(Debug, Clone)]
pub struct ContainsPrefilter {
    cover: ProbeCover,
    /// Empty pattern: every row is a candidate.
    match_all: bool,
}

impl ContainsPrefilter {
    /// The probed ids: points and ranges, each sorted and listed once.
    pub closed spec fn cover(&self) -> ProbeCover {
        self.cover
    }

    /// Every row is a candidate.
    pub closed spec fn matches_all(&self) -> bool {
        self.match_all
    }

    /// The prefilter can scan.
    pub open spec fn wf(&self) -> bool {
        &&& self.cover().wf()
        &&& self.cover().proper()
        &&& ranges_sorted(self.cover().range_list())
        &&& forall|i: int, j: int|
            0 <= i < j < self.cover().point_list().len() ==> self.cover().point_list()[i]
                < self.cover().point_list()[j]
    }

    /// The prefilter is that of `pattern` over `tokens`, with weights `sums`.
    pub open spec fn of(&self, tokens: Seq<Seq<u8>>, pattern: Seq<u8>, sums: Seq<u64>) -> bool {
        &&& self.wf()
        &&& self.matches_all() == (pattern.len() == 0)
        &&& self.cover().members().len() == (if pattern.len() == 0 {
            0
        } else {
            tokens.len()
        })
        &&& forall|t: Token| #[trigger]
            self.cover().point_list().contains(t) <==> pattern.len() > 0 && is_probe(
                tokens,
                pattern,
                sums,
                IdProbe::Point(t),
            )
        &&& forall|r: TokenRange| #[trigger]
            self.cover().range_list().contains(r) <==> pattern.len() > 0 && is_probe(
                tokens,
                pattern,
                sums,
                IdProbe::Range(r),
            )
    }

    /// Compiles the probe cover for `pattern`, selecting per terminal the
    /// option that weighs least.
    pub fn new(pattern: &[u8], dict: DictView<'_>, cum_freq: &[u64]) -> (r: ContainsPrefilter)
        requires
            dict.wf(),
            conformant(dict.tokens()),
            sums_ok(cum_freq@, dict.tokens().len() as int),
        ensures
            r.of(dict.tokens(), pattern@, cum_freq@),
    {
        if pattern.len() == 0 {
            return ContainsPrefilter {
                cover: ProbeCover::over(Vec::new(), Vec::new(), 0),
                match_all: true,
            };
        }
        compile_probes(dict, pattern, cum_freq)
    }

    /// Whether every row is a candidate.
    pub fn match_all(&self) -> (r: bool)
        ensures
            r == self.matches_all(),
    {
        self.match_all
    }

    /// The equality probes, ascending.
    pub fn points(&self) -> (r: &[Token])
        ensures
            r@ == self.cover().point_list(),
    {
        self.cover.points()
    }

    /// The range probes, ascending.
    pub fn ranges(&self) -> (r: &[TokenRange])
        ensures
            r@ == self.cover().range_list(),
    {
        self.cover.ranges()
    }
}

/// Compiles the sound probe cover for a non-empty pattern.
#[verifier::spinoff_prover]
#[verifier::rlimit(40)]
pub fn compile_probes(dict: DictView<'_>, np: &[u8], cum_freq: &[u64]) -> (r: ContainsPrefilter)
    requires
        dict.wf(),
        conformant(dict.tokens()),
        np@.len() > 0,
        sums_ok(cum_freq@, dict.tokens().len() as int),
    ensures
        r.of(dict.tokens(), np@, cum_freq@),
{
    let ghost toks = dict.tokens();
    let ghost nd = np@;
    let ghost sums = cum_freq@;
    let n: usize = np.len();
    let ntok: usize = dict.num_tokens();
    let top: usize = if n < MAX_TOKEN_SIZE {
        n
    } else {
        MAX_TOKEN_SIZE
    };
    let first = first_tokens(dict, np);
    let mut probes = Probes { marks: vec![false; ntok], ranges: Vec::new() };
    let mut k: usize = 0;
    proof {
        assert forall|p: IdProbe| !#[trigger] probes.has(p) by {}
    }
    while k < top
        invariant
            compiles(dict, nd, sums, first),
            nd == np@,
            sums == cum_freq@,
            toks == dict.tokens(),
            top == kmax(nd.len() as int),
            k <= top,
            probes.wf(toks.len() as int),
            forall|p: IdProbe| #[trigger]
                probes.has(p) <==> probed_upto(toks, nd, sums, k as int, p),
        decreases top - k,
    {
        let ghost before = probes;
        let feasible: bool = if k == 0 {
            true
        } else {
            assert(set_ok(first.count@, first.ids@, toks, nd, k as int, toks.len() as int));
            first.count[k] > 0
        };
        assert(feasible == is_entry(toks, nd, k as int));
        if feasible {
            probes.add_alignment(dict, np, cum_freq, &first, k);
        }
        proof {
            assert forall|p: IdProbe| #[trigger] probes.has(p) <==> probed_upto(
                toks,
                nd,
                sums,
                k + 1,
                p,
            ) by {
                assert(before.has(p) <==> probed_upto(toks, nd, sums, k as int, p));
                if probed_upto(toks, nd, sums, k + 1, p) {
                    let j = choose|j: int|
                        0 <= j < k + 1 && #[trigger] probed_at(toks, nd, sums, j, p);
                    if j < k {
                        assert(probed_upto(toks, nd, sums, k as int, p));
                    }
                }
                if probed_upto(toks, nd, sums, k as int, p) {
                    let j = choose|j: int| 0 <= j < k && #[trigger] probed_at(toks, nd, sums, j, p);
                    assert(probed_at(toks, nd, sums, j, p));
                }
            }
        }
        k = k + 1;
    }
    let ghost chosen = probes;
    // The tokens that contain the whole needle.
    let contained = contained_tokens(dict, np);
    let ghost cs = contained@;
    let mut j: usize = 0;
    while j < contained.len()
        invariant
            cs == contained@,
            j <= cs.len(),
            are_containing(cs, toks, nd),
            probes.wf(toks.len() as int),
            forall|p: IdProbe| #[trigger]
                probes.has(p) <==> chosen.has(p) || exists|q: int|
                    0 <= q < j && p == IdProbe::Point(#[trigger] cs[q]),
        decreases cs.len() - j,
    {
        let ghost before = probes;
        let id: Token = contained[j];
        assert(cs.contains(id));
        probes.mark(id);
        proof {
            assert forall|p: IdProbe| #[trigger] probes.has(p) <==> chosen.has(p) || exists|q: int|
                0 <= q < j + 1 && p == IdProbe::Point(#[trigger] cs[q]) by {
                assert(before.has(p) <==> chosen.has(p) || exists|q: int|
                    0 <= q < j && p == IdProbe::Point(#[trigger] cs[q]));
            }
        }
        j = j + 1;
    }
    let Probes { marks, ranges } = probes;
    let ghost ms = marks@;
    let ghost rs = ranges@;
    let mut points: Vec<Token> = Vec::new();
    let mut id: usize = 0;
    while id < ntok
        invariant
            ms == marks@,
            ms.len() == ntok,
            ntok <= MAX_TOKENS,
            id <= ntok,
            forall|i: int| 0 <= i < points@.len() ==> #[trigger] points@[i] < id,
            forall|a: int, b: int| 0 <= a < b < points@.len() ==> points@[a] < points@[b],
            forall|u: int|
                (exists|i: int| 0 <= i < points@.len() && #[trigger] points@[i] == u) <==> 0 <= u
                    < id && #[trigger] ms[u],
        decreases ntok - id,
    {
        let ghost before = points@;
        if marks[id] {
            points.push(id as Token);
        }
        proof {
            assert forall|u: int|
                (exists|i: int| 0 <= i < points@.len() && #[trigger] points@[i] == u) <==> 0 <= u
                    < id + 1 && #[trigger] ms[u] by {
                if exists|i: int| 0 <= i < before.len() && #[trigger] before[i] == u {
                    let i = choose|i: int| 0 <= i < before.len() && #[trigger] before[i] == u;
                    assert(points@[i] == u);
                }
                if u == id && ms[u] {
                    assert(points@[before.len() as int] == u);
                }
                if exists|i: int| 0 <= i < points@.len() && #[trigger] points@[i] == u {
                    let i = choose|i: int| 0 <= i < points@.len() && #[trigger] points@[i] == u;
                    if i < before.len() {
                        assert(before[i] == u);
                    }
                }
            }
        }
        id = id + 1;
    }
    let ghost ps = points@;
    proof {
        assert(probes.ranges@ == rs);
        assert forall|t: int| #[trigger] listed(ps, rs, t) implies t < ntok by {
            lemma_listed_below(ps, rs, ntok as int, t);
        }
    }
    let cover = ProbeCover::over(points, ranges, ntok);
    let r = ContainsPrefilter { cover, match_all: false };
    proof {
        assert forall|i: int| 0 <= i < cover.range_list().len() implies !(
        #[trigger] cover.range_list()[i]).nothing() by {
            assert(rs.contains(rs[i]));
        }
        assert forall|t: Token| #[trigger] ps.contains(t) <==> is_probe(
            toks,
            nd,
            sums,
            IdProbe::Point(t),
        ) by {
            let p = IdProbe::Point(t);
            assert(ps.contains(t) <==> t < ms.len() && ms[t as int]) by {
                if ps.contains(t) {
                    let i = choose|i: int| 0 <= i < ps.len() && ps[i] == t;
                    assert(ps[i] == t as int);
                }
                if t < ms.len() && ms[t as int] {
                    let i = choose|i: int| 0 <= i < ps.len() && #[trigger] ps[i] == t as int;
                    assert(ps[i] == t);
                }
            }
            assert(probes.has(p) <==> t < ms.len() && ms[t as int]);
            assert(chosen.has(p) <==> probed_upto(toks, nd, sums, top as int, p));
            assert(cs.contains(t) <==> t < toks.len() && contains(toks[t as int], nd));
            if cs.contains(t) {
                let q = choose|q: int| 0 <= q < cs.len() && cs[q] == t;
                assert(p == IdProbe::Point(cs[q]));
            }
            if exists|q: int| 0 <= q < cs.len() && p == IdProbe::Point(#[trigger] cs[q]) {
                let q = choose|q: int| 0 <= q < cs.len() && p == IdProbe::Point(#[trigger] cs[q]);
                assert(cs.contains(cs[q]));
            }
        }
        assert forall|x: TokenRange| #[trigger] rs.contains(x) <==> is_probe(
            toks,
            nd,
            sums,
            IdProbe::Range(x),
        ) by {
            let p = IdProbe::Range(x);
            assert(probes.has(p) <==> rs.contains(x));
            assert(chosen.has(p) <==> probed_upto(toks, nd, sums, top as int, p));
        }
    }
    r
}

/// Probes below a bound catch no id from it on.
proof fn lemma_listed_below(ps: Seq<Token>, rs: Seq<TokenRange>, n: int, t: int)
    requires
        forall|i: int| 0 <= i < ps.len() ==> #[trigger] ps[i] < n,
        forall|r: TokenRange| #[trigger] rs.contains(r) ==> !r.nothing() && r.last < n,
        listed(ps, rs, t),
    ensures
        t < n,
{
    if exists|i: int| 0 <= i < rs.len() && (#[trigger] rs[i]).has(t) {
        let i = choose|i: int| 0 <= i < rs.len() && (#[trigger] rs[i]).has(t);
        assert(rs.contains(rs[i]));
    }
}

/// Use a block kernel only while the comparisons per vector stay at or below
/// this; a wider cover is cheaper scanned through the table.
pub const SIMD_CAP: usize = 32;

/// Appends the rows that hold a probed token, by the widest kernel of the
/// target, or through the table where the cover is wide.
pub fn scan<O: Offset>(
    codes: &[Token],
    row_offsets: &[O],
    pf: &ContainsPrefilter,
    caps: TargetCaps,
    out: &mut Vec<usize>,
)
    requires
        pf.wf(),
        delimits(bounds(row_offsets@), codes@.len() as int),
    ensures
        scanned(old(out)@, final(out)@, codes@, row_offsets@, &pf.cover()),
{
    let cover: &ProbeCover = &pf.cover;
    let points: usize = cover.points().len();
    let ranges: usize = cover.ranges().len();
    let narrow: bool = points <= SIMD_CAP && ranges <= SIMD_CAP && points + 2 * ranges <= SIMD_CAP;
    if !narrow {
        scan_rows_table(codes, row_offsets, cover, out);
        return;
    }
    match caps {
        TargetCaps::Aarch64Neon => {
            let probe = Compare::<BoundRange>::new(cover);
            scan_blocks(
                codes,
                row_offsets,
                cover,
                false,
                8,
                HitMaterialization::StoredLanes,
                &probe,
                out,
            );
        },
        TargetCaps::X86_64 { avx2, avx512bw } => {
            if avx512bw {
                scan_avx512(codes, row_offsets, cover, false, out);
            } else if avx2 {
                scan_avx2(codes, row_offsets, cover, false, out);
            } else {
                let probe = Compare::<BiasedRange>::new(cover);
                scan_blocks(
                    codes,
                    row_offsets,
                    cover,
                    false,
                    8,
                    HitMaterialization::StoredLanes,
                    &probe,
                    out,
                );
            }
        },
        TargetCaps::Unsupported => {
            scan_rows_table(codes, row_offsets, cover, out);
        },
    }
}

/// Appends, ascending, the rows that hold a probed token: a superset of the
/// rows that contain the prepared pattern. An empty pattern yields every row.
/// The scan is by the kernel that every x86-64 machine has.
pub fn prefilter_candidates<O: Offset>(
    codes: &[Token],
    row_offsets: &[O],
    pf: &ContainsPrefilter,
    out: &mut Vec<usize>,
)
    requires
        pf.wf(),
        !pf.matches_all() ==> delimits(bounds(row_offsets@), codes@.len() as int),
    ensures
        pf.matches_all() ==> final(out)@ == old(out)@ + selected_rows(
            row_count(bounds(row_offsets@)),
            every_row(),
        ),
        !pf.matches_all() ==> scanned(
            old(out)@,
            final(out)@,
            codes@,
            row_offsets@,
            &pf.cover(),
        ),
{
    let caps = TargetCaps::X86_64 { avx2: false, avx512bw: false };
    prefilter_candidates_on(codes, row_offsets, pf, caps, out);
}

/// [`prefilter_candidates`] by the widest kernel of the target.
pub fn prefilter_candidates_on<O: Offset>(
    codes: &[Token],
    row_offsets: &[O],
    pf: &ContainsPrefilter,
    caps: TargetCaps,
    out: &mut Vec<usize>,
)
    requires
        pf.wf(),
        !pf.matches_all() ==> delimits(bounds(row_offsets@), codes@.len() as int),
    ensures
        pf.matches_all() ==> final(out)@ == old(out)@ + selected_rows(
            row_count(bounds(row_offsets@)),
            every_row(),
        ),
        !pf.matches_all() ==> scanned(
            old(out)@,
            final(out)@,
            codes@,
            row_offsets@,
            &pf.cover(),
        ),
{
    if pf.match_all {
        append_all_rows(row_offsets, out);
        return;
    }
    scan(codes, row_offsets, pf, caps, out);
}

/// The range of the tokens that begin with `prefix`, where one does.
proof fn some_range(tokens: Seq<Seq<u8>>, prefix: Seq<u8>, a: int, b: int) -> (r: TokenRange)
    requires
        sorted(tokens),
        tokens.len() <= MAX_TOKENS,
        0 <= a <= b < tokens.len(),
        starts_with(tokens[a], prefix),
        starts_with(tokens[b], prefix),
    ensures
        is_prefix_range(r, tokens, prefix),
        !r.nothing(),
    decreases a + tokens.len() - b,
{
    if exists|t: int| 0 <= t < a && starts_with(#[trigger] tokens[t], prefix) {
        let t = choose|t: int| 0 <= t < a && starts_with(#[trigger] tokens[t], prefix);
        some_range(tokens, prefix, t, b)
    } else if exists|t: int| b < t < tokens.len() && starts_with(#[trigger] tokens[t], prefix) {
        let t = choose|t: int| b < t < tokens.len() && starts_with(#[trigger] tokens[t], prefix);
        some_range(tokens, prefix, a, t)
    } else {
        let r = TokenRange { begin: a as Token, last: b as Token };
        assert forall|t: int| #[trigger] r.has(t) <==> 0 <= t < tokens.len() && starts_with(
            tokens[t],
            prefix,
        ) by {
            if a <= t <= b {
                if a < t && t < b {
                    assert(less(tokens[a], tokens[t]));
                    if less(tokens[t], prefix) {
                        lemma_less_transitive(tokens[a], tokens[t], prefix);
                        lemma_prefix_not_less(tokens[a], prefix);
                    }
                    lemma_prefix_between(tokens[t], tokens[b], prefix);
                }
            }
        }
        r
    }
}

/// The parse from an offset.
proof fn make_parse(tokens: Seq<Seq<u8>>, needle: Seq<u8>, o: int) -> (r: (Seq<Token>, Seq<int>))
    requires
        conformant(tokens),
        0 <= o < needle.len(),
    ensures
        is_parse(tokens, needle, o, r.0, r.1),
        r.0.len() <= needle.len() - o,
    decreases needle.len() - o,
{
    let rest = needle.skip(o);
    let t = some_longest(tokens, rest);
    let len = tokens[t].len() as int;
    assert(len >= 1);
    assert(starts_with(rest, tokens[t]));
    if o + len == needle.len() {
        let none: Seq<Token> = Seq::empty();
        let pos = seq![o];
        assert(parse_end(tokens, needle, o));
        assert(is_parse(tokens, needle, o, none, pos));
        (none, pos)
    } else {
        let (ts, ps) = make_parse(tokens, needle, o + len);
        let interior = seq![t as Token] + ts;
        let pos = seq![o] + ps;
        assert forall|i: int| 0 <= i < interior.len() implies #[trigger] parse_step(
            tokens,
            needle,
            interior,
            pos,
            i,
        ) by {
            if i > 0 {
                assert(parse_step(tokens, needle, ts, ps, i - 1));
                assert(interior[i] == ts[i - 1]);
                assert(pos[i] == ps[i - 1]);
                assert(pos[i + 1] == ps[i]);
            } else {
                assert(pos[1] == ps[0]);
            }
        }
        assert(pos[pos.len() - 1] == ps[ps.len() - 1]);
        (interior, pos)
    }
}

/// A complete dictionary has a longest token for the start of any bytes.
proof fn some_longest(tokens: Seq<Seq<u8>>, s: Seq<u8>) -> (t: int)
    requires
        conformant(tokens),
        s.len() > 0,
    ensures
        is_longest(tokens, s, t),
{
    lemma_some_token(tokens, s);
    let u = choose|u: int| 0 <= u < tokens.len() && starts_with(s, #[trigger] tokens[u]);
    longest_above(tokens, s, u)
}

proof fn longest_above(tokens: Seq<Seq<u8>>, s: Seq<u8>, u: int) -> (t: int)
    requires
        sized(tokens),
        0 <= u < tokens.len(),
        starts_with(s, tokens[u]),
    ensures
        is_longest(tokens, s, t),
    decreases MAX_TOKEN_SIZE - tokens[u].len(),
{
    if exists|v: int|
        0 <= v < tokens.len() && starts_with(s, #[trigger] tokens[v]) && tokens[v].len()
            > tokens[u].len() {
        let v = choose|v: int|
            0 <= v < tokens.len() && starts_with(s, #[trigger] tokens[v]) && tokens[v].len()
                > tokens[u].len();
        assert(tokens[v].len() <= MAX_TOKEN_SIZE);
        longest_above(tokens, s, v)
    } else {
        u
    }
}

/// The lightest of some interior tokens.
proof fn some_lightest(sums: Seq<u64>, interior: Seq<Token>, i: int) -> (a: int)
    requires
        0 < i <= interior.len(),
    ensures
        lightest(sums, interior, i, a),
    decreases i,
{
    if i == 1 {
        0
    } else {
        let a = some_lightest(sums, interior, i - 1);
        if mass(sums, interior[i - 1] as int) < mass(sums, interior[a] as int) {
            assert forall|b: int| 0 <= b < i - 1 implies mass(sums, interior[i - 1] as int) < mass(
                sums,
                #[trigger] interior[b] as int,
            ) by {
                if b < a {
                    assert(mass(sums, interior[a] as int) < mass(sums, interior[b] as int));
                } else {
                    assert(mass(sums, interior[a] as int) <= mass(sums, interior[b] as int));
                }
            }
            i - 1
        } else {
            a
        }
    }
}

/// Every terminal has a choice.
proof fn some_choice(
    sums: Seq<u64>,
    interior: Seq<Token>,
    i: int,
    range: int,
    set: Option<int>,
) -> (choice: Choice)
    requires
        0 <= i <= interior.len() <= usize::MAX,
    ensures
        is_choice(choice, sums, interior, i, range, set),
{
    if i == 0 {
        if set is Some && set->0 < range {
            Choice::FirstSet
        } else {
            Choice::Range
        }
    } else {
        let a = some_lightest(sums, interior, i);
        let m = mass(sums, interior[a] as int);
        assert forall|x: int| x < m implies !#[trigger] some_as_light(sums, interior, i, x) by {
            if some_as_light(sums, interior, i, x) {
                let b = choose|b: int| 0 <= b < i && mass(sums, #[trigger] interior[b] as int) <= x;
                if b < a {
                    assert(m < mass(sums, interior[b] as int));
                } else {
                    assert(m <= mass(sums, interior[b] as int));
                }
            }
        }
        if m <= range {
            if set is Some && set->0 < m {
                Choice::FirstSet
            } else {
                Choice::Point(a as usize)
            }
        } else if set is Some && set->0 < range {
            Choice::FirstSet
        } else {
            Choice::Range
        }
    }
}

/// The `i` codes before code `j` are the first interior tokens of a parse.
spec fn interior_before(codes: Seq<Token>, interior: Seq<Token>, i: int, j: int) -> bool {
    forall|q: int| 0 <= q < i ==> codes[j - i + q] == #[trigger] interior[q]
}

proof fn lemma_interior_step(codes: Seq<Token>, interior: Seq<Token>, i: int, j: int)
    requires
        interior_before(codes, interior, i, j),
        codes[j] == interior[i],
    ensures
        interior_before(codes, interior, i + 1, j + 1),
{
}

/// The code that a terminal probes for, in a row that has the interior tokens
/// before code `j`, the first token before them, and ends the needle there.
proof fn terminal_code(
    tokens: Seq<Seq<u8>>,
    needle: Seq<u8>,
    sums: Seq<u64>,
    codes: Seq<Token>,
    k: int,
    interior: Seq<Token>,
    pos: Seq<int>,
    i: int,
    j: int,
) -> (r: (int, IdProbe))
    requires
        sorted(tokens),
        sized(tokens),
        is_entry(tokens, needle, k),
        is_parse(tokens, needle, k, interior, pos),
        interior.len() <= usize::MAX,
        0 <= i <= interior.len(),
        i <= j < codes.len(),
        codes_ok(codes, tokens.len()),
        starts_with(tokens[codes[j] as int], needle.skip(pos[i])),
        interior_before(codes, interior, i, j),
        k >= 1 ==> j - i >= 1 && ends_with(tokens[codes[j - i - 1] as int], needle.take(k)),
    ensures
        0 <= r.0 < codes.len(),
        r.1.catches(codes[r.0] as int),
        probed_at(tokens, needle, sums, k, r.1),
{
    let t = codes[j] as int;
    assert(codes[j] < tokens.len());
    let rest = needle.skip(pos[i]);
    assert(can_end(tokens, needle, pos[i]));
    assert(is_terminal(tokens, needle, interior, pos, i));
    let range = some_range(tokens, rest, t, t);
    assert(range.has(t));
    let set = if has_set(tokens, needle, k) {
        Some(set_mass(tokens, needle, sums, k))
    } else {
        None
    };
    let choice = some_choice(sums, interior, i, range_mass(sums, range), set);
    assert(terminal_choice(tokens, needle, sums, k, interior, pos, i, choice, range));
    let h = match choice {
        Choice::Point(a) => j - i + a,
        Choice::Range => j,
        Choice::FirstSet => j - i - 1,
    };
    assert(0 <= h < codes.len());
    assert(codes[h] < tokens.len());
    let p = match choice {
        Choice::Range => IdProbe::Range(range),
        _ => IdProbe::Point(codes[h]),
    };
    assert(choice_gives(tokens, needle, k, interior, choice, range, p)) by {
        match choice {
            Choice::Point(a) => {
                assert(codes[j - i + a] == interior[a as int]);
            },
            _ => {},
        }
    }
    assert(probed_by(tokens, needle, sums, k, interior, pos, i, p));
    (h, p)
}

/// The longest token at a place of a parse that ends inside the needle is the
/// parse's own.
proof fn lemma_parse_follows(
    tokens: Seq<Seq<u8>>,
    needle: Seq<u8>,
    k: int,
    interior: Seq<Token>,
    pos: Seq<int>,
    i: int,
    t: Token,
)
    requires
        sorted(tokens),
        is_parse(tokens, needle, k, interior, pos),
        0 <= i <= interior.len(),
        is_longest(tokens, needle.skip(pos[i]), t as int),
        pos[i] + tokens[t as int].len() < needle.len(),
    ensures
        i < interior.len(),
        interior[i] == t,
        pos[i + 1] == pos[i] + tokens[t as int].len(),
{
    let o = pos[i];
    let rest = needle.skip(o);
    if i == interior.len() {
        assert(parse_end(tokens, needle, o));
        let u = choose|u: int| #[trigger]
            is_longest(tokens, rest, u) && o + tokens[u].len() == needle.len();
        assert(starts_with(rest, tokens[u]));
    } else {
        assert(parse_step(tokens, needle, interior, pos, i));
        let u = interior[i] as int;
        assert(starts_with(rest, tokens[u]) && starts_with(rest, tokens[t as int]));
        assert(tokens[u] =~= tokens[t as int]) by {
            assert(rest.take(tokens[u].len() as int) =~= tokens[u]);
            assert(rest.take(tokens[t as int].len() as int) =~= tokens[t as int]);
        }
        lemma_sorted_unique(tokens, t as int, u);
    }
}

/// Follows an occurrence from place `i` of a parse, before code `j`, to the
/// token that ends it, and finds the code that its terminal probes for.
#[verifier::spinoff_prover]
#[verifier::rlimit(60)]
proof fn probed_code(
    tokens: Seq<Seq<u8>>,
    needle: Seq<u8>,
    sums: Seq<u64>,
    codes: Seq<Token>,
    x: int,
    k: int,
    interior: Seq<Token>,
    pos: Seq<int>,
    i: int,
    j: int,
) -> (r: (int, IdProbe))
    requires
        conformant(tokens),
        is_greedy(tokens, codes),
        codes_ok(codes, tokens.len()),
        occurs_at(decode(tokens, codes), needle, x),
        is_entry(tokens, needle, k),
        is_parse(tokens, needle, k, interior, pos),
        interior.len() <= usize::MAX,
        0 <= i <= interior.len(),
        i <= j < codes.len(),
        start(tokens, codes, j) == x + pos[i],
        interior_before(codes, interior, i, j),
        k >= 1 ==> j - i >= 1 && ends_with(tokens[codes[j - i - 1] as int], needle.take(k)),
    ensures
        0 <= r.0 < codes.len(),
        r.1.catches(codes[r.0] as int),
        probed_at(tokens, needle, sums, k, r.1),
    decreases interior.len() - i,
{
    let o = pos[i];
    assert(0 <= o < needle.len()) by {
        if i < interior.len() {
            assert(parse_step(tokens, needle, interior, pos, i));
        } else {
            assert(parse_end(tokens, needle, o));
        }
    }
    lemma_token_in_needle(tokens, needle, codes, x, o, j);
    let t = codes[j];
    if o + tokens[t as int].len() >= needle.len() {
        terminal_code(tokens, needle, sums, codes, k, interior, pos, i, j)
    } else {
        lemma_parse_follows(tokens, needle, k, interior, pos, i, t);
        lemma_interior_step(codes, interior, i, j);
        probed_code(tokens, needle, sums, codes, x, k, interior, pos, i + 1, j + 1)
    }
}

/// The prefilter of a pattern is sound: every greedily tokenized row that
/// contains the pattern holds a probed token.
pub proof fn lemma_prefilter_is_sound(
    pf: &ContainsPrefilter,
    tokens: Seq<Seq<u8>>,
    pattern: Seq<u8>,
    sums: Seq<u64>,
    codes: Seq<Token>,
)
    requires
        pf.of(tokens, pattern, sums),
        conformant(tokens),
        is_greedy(tokens, codes),
        0 < pattern.len() <= usize::MAX,
        contains(decode(tokens, codes), pattern),
    ensures
        exists|h: int| 0 <= h < codes.len() && pf.cover().has(#[trigger] codes[h] as int),
{
    let text = decode(tokens, codes);
    let n = pattern.len() as int;
    let x = choose|x: int| occurs_at(text, pattern, x);
    lemma_first(tokens, codes);
    let j = locate(tokens, codes, x);
    lemma_start(tokens, codes, j);
    let tok = tokens[codes[j] as int];
    assert(codes[j] < tokens.len());
    let a = start(tokens, codes, j);
    let b = start(tokens, codes, j + 1);
    assert forall|i: int| 0 <= i < n implies text[x + i] == #[trigger] pattern[i] by {
        assert(text.subrange(x, x + n)[i] == pattern[i]);
    }
    let (h, p) = if x + n <= b {
        assert(occurs_at(tok, pattern, x - a)) by {
            assert(tok.subrange(x - a, x - a + n) =~= pattern) by {
                assert forall|i: int| 0 <= i < n implies tok[x - a + i] == pattern[i] by {
                    assert(text[a + (x - a + i)] == tok[x - a + i]);
                }
            }
        }
        assert(contains(tok, pattern));
        (j, IdProbe::Point(codes[j]))
    } else if x == a {
        let (interior, pos) = make_parse(tokens, pattern, 0);
        assert(is_entry(tokens, pattern, 0));
        let (h, p) = probed_code(tokens, pattern, sums, codes, x, 0, interior, pos, 0, j);
        assert(probed_upto(tokens, pattern, sums, kmax(n), p));
        (h, p)
    } else {
        let k = b - x;
        let head = pattern.take(k);
        assert(ends_with(tok, head)) by {
            assert(tok.skip(tok.len() - k) =~= head) by {
                assert forall|i: int| 0 <= i < k implies tok[tok.len() - k + i] == head[i] by {
                    assert(text[a + (tok.len() - k + i)] == tok[tok.len() - k + i]);
                    assert(pattern[i] == head[i]);
                }
            }
        }
        assert(tok.len() <= MAX_TOKEN_SIZE);
        assert(1 <= k < kmax(n));
        let all = entering(tokens, pattern, k, tokens.len() as int);
        lemma_entering(tokens, pattern, k, tokens.len() as int);
        assert(all.contains(codes[j]));
        assert(is_entry(tokens, pattern, k));
        let (interior, pos) = make_parse(tokens, pattern, k);
        assert(j + 1 < codes.len()) by {
            if j + 1 == codes.len() {
                assert(b == text.len());
            }
        }
        let (h, p) = probed_code(tokens, pattern, sums, codes, x, k, interior, pos, 0, j + 1);
        assert(probed_upto(tokens, pattern, sums, kmax(n), p));
        (h, p)
    };
    assert(codes[h] < tokens.len());
    assert(is_probe(tokens, pattern, sums, p));
    lemma_probe_is_covered(pf, tokens, pattern, sums, p, codes[h] as int);
}

/// The cover holds what one of its probes catches.
proof fn lemma_probe_is_covered(
    pf: &ContainsPrefilter,
    tokens: Seq<Seq<u8>>,
    pattern: Seq<u8>,
    sums: Seq<u64>,
    p: IdProbe,
    t: int,
)
    requires
        pf.of(tokens, pattern, sums),
        pattern.len() > 0,
        is_probe(tokens, pattern, sums, p),
        p.catches(t),
    ensures
        pf.cover().has(t),
{
    let ps = pf.cover().point_list();
    let rs = pf.cover().range_list();
    match p {
        IdProbe::Point(id) => {
            assert(ps.contains(id));
            let i = choose|i: int| 0 <= i < ps.len() && ps[i] == id;
            assert(ps[i] == t);
        },
        IdProbe::Range(r) => {
            assert(rs.contains(r));
            let i = choose|i: int| 0 <= i < rs.len() && rs[i] == r;
            assert(rs[i].has(t));
        },
    }
}

/// The probes of a pattern that is not empty: points ascending, ranges
/// ascending as pairs and each from an id to one no smaller, all of them ids of
/// the dictionary; a table as wide as the dictionary that marks just what some
/// probe catches, every token that contains the whole pattern among it; and
/// rows that match are not all rows outright.
pub proof fn lemma_probe_lists(
    pf: &ContainsPrefilter,
    tokens: Seq<Seq<u8>>,
    pattern: Seq<u8>,
    sums: Seq<u64>,
)
    requires
        pf.of(tokens, pattern, sums),
        pattern.len() > 0,
    ensures
        forall|i: int, j: int|
            0 <= i < j < pf.cover().point_list().len() ==> pf.cover().point_list()[i]
                < pf.cover().point_list()[j],
        ranges_sorted(pf.cover().range_list()),
        forall|i: int|
            0 <= i < pf.cover().range_list().len() ==> (
            #[trigger] pf.cover().range_list()[i]).begin <= pf.cover().range_list()[i].last
                < tokens.len(),
        pf.cover().members().len() == tokens.len(),
        forall|t: int|
            0 <= t < tokens.len() ==> (#[trigger] pf.cover().members()[t] <==> listed(
                pf.cover().point_list(),
                pf.cover().range_list(),
                t,
            )),
        forall|t: int|
            0 <= t < tokens.len() && contains(
                #[trigger] tokens[t],
                pattern,
            ) ==> pf.cover().members()[t],
        !pf.matches_all(),
{
    let c = pf.cover();
    assert forall|i: int| 0 <= i < c.range_list().len() implies (
    #[trigger] c.range_list()[i]).begin <= c.range_list()[i].last < tokens.len() by {
        let last = c.range_list()[i].last as int;
        assert(c.range_list()[i].has(last));
        assert(c.has(last));
    }
    assert forall|t: int| 0 <= t < tokens.len() implies (#[trigger] c.members()[t] <==> listed(
        c.point_list(),
        c.range_list(),
        t,
    )) by {
        assert(c.has(t) <==> c.members()[t]);
    }
    assert forall|t: int|
        0 <= t < tokens.len() && contains(
            #[trigger] tokens[t],
            pattern,
        ) implies c.members()[t] by {
        let p = IdProbe::Point(t as Token);
        assert(is_probe(tokens, pattern, sums, p));
        lemma_probe_is_covered(pf, tokens, pattern, sums, p, t);
    }
}

/// Prefix sums that count a stream exactly weigh a token by its codes.
pub proof fn lemma_mass_counts_codes(sums: Seq<u64>, codes: Seq<Token>, t: int)
    requires
        0 <= t < sums.len() - 1,
        sums[t + 1] - sums[t] == occurrences(codes, t, codes.len()),
    ensures
        mass(sums, t) == set_int_range(0, codes.len() as int).filter(|i: int| codes[i] == t).len(),
{
    lemma_occurrences_counted(codes, t, codes.len());
}

/// Prefix sums that count a stream exactly weigh a range by the codes in it.
pub proof fn lemma_range_mass_counts_codes(sums: Seq<u64>, codes: Seq<Token>, r: TokenRange)
    requires
        r.begin <= r.last < sums.len() - 1,
        forall|t: int|
            0 <= t < sums.len() - 1 ==> #[trigger] sums[t + 1] - sums[t] == occurrences(
                codes,
                t,
                codes.len(),
            ),
    ensures
        range_mass(sums, r) == set_int_range(0, codes.len() as int).filter(
            |i: int| r.begin <= codes[i] <= r.last,
        ).len(),
{
    let n = codes.len() as int;
    lemma_steps_counted(sums, codes, r.begin as int, r.last + 1);
    assert(set_int_range(0, n).filter(|i: int| r.begin <= codes[i] <= r.last) =~= set_int_range(
        0,
        n,
    ).filter(|i: int| r.begin <= codes[i] < r.last + 1));
}

proof fn lemma_steps_counted(sums: Seq<u64>, codes: Seq<Token>, a: int, b: int)
    requires
        forall|t: int|
            0 <= t < sums.len() - 1 ==> #[trigger] sums[t + 1] - sums[t] == occurrences(
                codes,
                t,
                codes.len(),
            ),
        0 <= a <= b < sums.len(),
    ensures
        sums[b] - sums[a] == set_int_range(0, codes.len() as int).filter(
            |i: int| a <= codes[i] < b,
        ).len(),
    decreases b - a,
{
    let n = codes.len() as int;
    let all = set_int_range(0, n);
    let f = |i: int| a <= codes[i] < b;
    if a == b {
        assert(all.filter(f) =~= Set::<int>::empty());
    } else {
        lemma_steps_counted(sums, codes, a, b - 1);
        let g = |i: int| a <= codes[i] < b - 1;
        let h = |i: int| codes[i] == b - 1;
        lemma_occurrences_counted(codes, b - 1, codes.len());
        assert(sums[(b - 1) + 1] - sums[b - 1] == occurrences(codes, b - 1, codes.len()));
        lemma_count_finite(n, g);
        lemma_count_finite(n, h);
        assert(all.filter(g).disjoint(all.filter(h)));
        assert(all.filter(f) =~= all.filter(g).union(all.filter(h)));
        vstd::set_lib::lemma_set_disjoint_lens(all.filter(g), all.filter(h));
    }
}

/// Prefix sums that count a stream exactly weigh the first-token set of an
/// alignment by the codes whose token ends with that much of the needle.
pub proof fn lemma_set_mass_counts_codes(
    tokens: Seq<Seq<u8>>,
    needle: Seq<u8>,
    sums: Seq<u64>,
    codes: Seq<Token>,
    k: int,
)
    requires
        tokens.len() <= 65536,
        sums.len() == tokens.len() + 1,
        forall|t: int|
            0 <= t < sums.len() - 1 ==> #[trigger] sums[t + 1] - sums[t] == occurrences(
                codes,
                t,
                codes.len(),
            ),
    ensures
        set_mass(tokens, needle, sums, k) == set_int_range(0, codes.len() as int).filter(
            |i: int|
                codes[i] < tokens.len() && ends_with(tokens[codes[i] as int], needle.take(k)),
        ).len(),
{
    lemma_entering_counted(tokens, needle, sums, codes, k, tokens.len() as int);
}

proof fn lemma_entering_counted(
    tokens: Seq<Seq<u8>>,
    needle: Seq<u8>,
    sums: Seq<u64>,
    codes: Seq<Token>,
    k: int,
    upto: int,
)
    requires
        0 <= upto <= tokens.len() <= 65536,
        sums.len() == tokens.len() + 1,
        forall|t: int|
            0 <= t < sums.len() - 1 ==> #[trigger] sums[t + 1] - sums[t] == occurrences(
                codes,
                t,
                codes.len(),
            ),
    ensures
        list_mass(sums, entering(tokens, needle, k, upto)) == set_int_range(
            0,
            codes.len() as int,
        ).filter(
            |i: int| codes[i] < upto && ends_with(tokens[codes[i] as int], needle.take(k)),
        ).len(),
    decreases upto,
{
    let n = codes.len() as int;
    let all = set_int_range(0, n);
    let f = |i: int| codes[i] < upto && ends_with(tokens[codes[i] as int], needle.take(k));
    if upto == 0 {
        assert(all.filter(f) =~= Set::<int>::empty());
    } else {
        let last = upto - 1;
        lemma_entering_counted(tokens, needle, sums, codes, k, last);
        let g = |i: int| codes[i] < last && ends_with(tokens[codes[i] as int], needle.take(k));
        let h = |i: int| codes[i] == last;
        let rest = entering(tokens, needle, k, last);
        if ends_with(tokens[last], needle.take(k)) {
            let more = rest.push(last as Token);
            assert(more.drop_last() =~= rest);
            assert(more.last() == last);
            lemma_occurrences_counted(codes, last, codes.len());
            assert(sums[last + 1] - sums[last] == occurrences(codes, last, codes.len()));
            lemma_count_finite(n, g);
            lemma_count_finite(n, h);
            assert(all.filter(g).disjoint(all.filter(h)));
            assert(all.filter(f) =~= all.filter(g).union(all.filter(h)));
            vstd::set_lib::lemma_set_disjoint_lens(all.filter(g), all.filter(h));
        } else {
            assert(all.filter(f) =~= all.filter(g));
        }
    }
}

/// A first-token set is an option just where some of the needle is absorbed
/// and at most 16 tokens end with that much of it.
pub proof fn lemma_small_sets_are_options(tokens: Seq<Seq<u8>>, needle: Seq<u8>, k: int)
    requires
        tokens.len() <= 65536,
    ensures
        has_set(tokens, needle, k) <==> k >= 1 && set_int_range(0, tokens.len() as int).filter(
            |t: int| ends_with(tokens[t], needle.take(k)),
        ).len() <= 16,
{
    lemma_entering_len(tokens, needle, k, tokens.len() as int);
}

proof fn lemma_entering_len(tokens: Seq<Seq<u8>>, needle: Seq<u8>, k: int, upto: int)
    requires
        0 <= upto <= tokens.len(),
    ensures
        entering(tokens, needle, k, upto).len() == set_int_range(0, upto).filter(
            |t: int| ends_with(tokens[t], needle.take(k)),
        ).len(),
    decreases upto,
{
    let f = |t: int| ends_with(tokens[t], needle.take(k));
    if upto == 0 {
        lemma_count_none(f);
    } else {
        lemma_entering_len(tokens, needle, k, upto - 1);
        lemma_count_next(upto - 1, f);
    }
}

/// The probe that a terminal contributes catches no more codes of the stream
/// than any other option of it: an interior token than the other interior
/// tokens, the range of tokens that end the needle and the first-token set,
/// the range than these and the set, the set than these and the range. Of
/// equals an earlier interior token comes first, then the range, then the set.
pub proof fn lemma_kept_probe_catches_fewest(
    tokens: Seq<Seq<u8>>,
    needle: Seq<u8>,
    sums: Seq<u64>,
    codes: Seq<Token>,
    k: int,
    interior: Seq<Token>,
    pos: Seq<int>,
    i: int,
    choice: Choice,
    range: TokenRange,
)
    requires
        terminal_choice(tokens, needle, sums, k, interior, pos, i, choice, range),
        tokens.len() <= 65536,
        sums.len() == tokens.len() + 1,
        forall|t: int|
            0 <= t < sums.len() - 1 ==> #[trigger] sums[t + 1] - sums[t] == occurrences(
                codes,
                t,
                codes.len(),
            ),
    ensures
        range.begin <= range.last < tokens.len(),
        forall|t: int| #[trigger]
            range.has(t) <==> 0 <= t < tokens.len() && starts_with(tokens[t], needle.skip(pos[i])),
        ({
            let by_range = set_int_range(0, codes.len() as int).filter(
                |j: int| range.begin <= codes[j] <= range.last,
            ).len();
            let by_set = set_int_range(0, codes.len() as int).filter(
                |j: int|
                    codes[j] < tokens.len() && ends_with(tokens[codes[j] as int], needle.take(k)),
            ).len();
            let small = k >= 1 && set_int_range(0, tokens.len() as int).filter(
                |t: int| ends_with(tokens[t], needle.take(k)),
            ).len() <= 16;
            match choice {
                Choice::Point(a) => {
                    let by_token = sums[interior[a as int] + 1] - sums[interior[a as int] as int];
                    &&& 0 <= a < i
                    &&& forall|b: int|
                        0 <= b < i ==> by_token <= sums[#[trigger] interior[b] + 1]
                            - sums[interior[b] as int]
                    &&& forall|b: int|
                        0 <= b < a ==> by_token < sums[#[trigger] interior[b] + 1]
                            - sums[interior[b] as int]
                    &&& by_token <= by_range
                    &&& small ==> by_token <= by_set
                },
                Choice::Range => {
                    &&& forall|b: int|
                        0 <= b < i ==> by_range < sums[#[trigger] interior[b] + 1]
                            - sums[interior[b] as int]
                    &&& small ==> by_range <= by_set
                },
                Choice::FirstSet => {
                    &&& small
                    &&& by_set < by_range
                    &&& forall|b: int|
                        0 <= b < i ==> by_set < sums[#[trigger] interior[b] + 1]
                            - sums[interior[b] as int]
                },
            }
        }),
{
    assert(range.has(range.last as int));
    lemma_range_mass_counts_codes(sums, codes, range);
    lemma_set_mass_counts_codes(tokens, needle, sums, codes, k);
    lemma_small_sets_are_options(tokens, needle, k);
    match choice {
        Choice::Point(a) => {
            assert forall|b: int| 0 <= b < i implies mass(sums, interior[a as int] as int) <= sums[
            #[trigger] interior[b] + 1] - sums[interior[b] as int] by {
                if b < a {
                    assert(mass(sums, interior[a as int] as int) < mass(
                        sums,
                        interior[b] as int,
                    ));
                } else {
                    assert(mass(sums, interior[a as int] as int) <= mass(
                        sums,
                        interior[b] as int,
                    ));
                }
            }
            assert forall|b: int| 0 <= b < a implies mass(sums, interior[a as int] as int) < sums[
            #[trigger] interior[b] + 1] - sums[interior[b] as int] by {
                assert(mass(sums, interior[a as int] as int) < mass(sums, interior[b] as int));
            }
        },
        Choice::Range => {
            assert forall|b: int| 0 <= b < i implies range_mass(sums, range) < sums[
            #[trigger] interior[b] + 1] - sums[interior[b] as int] by {
                assert(!some_as_light(sums, interior, i, range_mass(sums, range)));
                if mass(sums, interior[b] as int) <= range_mass(sums, range) {
                    assert(some_as_light(sums, interior, i, range_mass(sums, range)));
                }
            }
        },
        Choice::FirstSet => {
            let w = set_mass(tokens, needle, sums, k);
            assert forall|b: int| 0 <= b < i implies w < sums[#[trigger] interior[b] + 1]
                - sums[interior[b] as int] by {
                assert(!some_as_light(sums, interior, i, w));
                if mass(sums, interior[b] as int) <= w {
                    assert(some_as_light(sums, interior, i, w));
                }
            }
        },
    }
}

/// Where a layout can begin: at the needle's start, or with up to 15 bytes of
/// the needle, and not all of it, at the end of some token.
pub proof fn lemma_entries_mean(tokens: Seq<Seq<u8>>, needle: Seq<u8>, k: int)
    requires
        tokens.len() <= 65536,
    ensures
        0 <= k < kmax(needle.len() as int) <==> 0 <= k < needle.len() && k <= 15,
        is_entry(tokens, needle, k) <==> k == 0 || (1 <= k < needle.len() && k <= 15 && exists|
            t: int,
        |
            0 <= t < tokens.len() && ends_with(#[trigger] tokens[t], needle.take(k))),
{
    let n = tokens.len() as int;
    let all = entering(tokens, needle, k, n);
    lemma_entering(tokens, needle, k, n);
    if all.len() > 0 {
        assert(all.contains(all[0]));
        assert(ends_with(tokens[all[0] as int], needle.take(k)));
    }
    if exists|t: int| 0 <= t < n && ends_with(#[trigger] tokens[t], needle.take(k)) {
        let t = choose|t: int| 0 <= t < n && ends_with(#[trigger] tokens[t], needle.take(k));
        assert(all.contains(t as Token));
    }
}

/// A parse takes the longest token at each place, one after the other from its
/// offset on, each ending inside the needle, up to a place where the longest
/// token reaches the needle's end.
pub proof fn lemma_parses_mean(
    tokens: Seq<Seq<u8>>,
    needle: Seq<u8>,
    k: int,
    interior: Seq<Token>,
    pos: Seq<int>,
    i: int,
)
    requires
        is_parse(tokens, needle, k, interior, pos),
    ensures
        pos.len() == interior.len() + 1,
        pos[0] == k,
        0 <= i < interior.len() ==> {
            &&& 0 <= pos[i] < needle.len()
            &&& is_longest(tokens, needle.skip(pos[i]), interior[i] as int)
            &&& pos[i + 1] == pos[i] + tokens[interior[i] as int].len()
            &&& pos[i + 1] < needle.len()
        },
        0 <= pos[interior.len() as int] < needle.len(),
        exists|t: int| #[trigger]
            is_longest(tokens, needle.skip(pos[interior.len() as int]), t)
                && pos[interior.len() as int] + tokens[t].len() == needle.len(),
        is_terminal(tokens, needle, interior, pos, i) <==> 0 <= i <= interior.len() && (i
            == interior.len() || exists|t: int|
            0 <= t < tokens.len() && starts_with(#[trigger] tokens[t], needle.skip(pos[i]))),
{
    if 0 <= i < interior.len() {
        assert(parse_step(tokens, needle, interior, pos, i));
    }
    assert(parse_end(tokens, needle, pos[pos.len() - 1]));
}

/// Every terminal of every alignment that can occur contributes its probe: the
/// kept interior token is a point, the kept range is a range, and of a kept
/// set every token is a point.
pub proof fn kept_probe(
    pf: &ContainsPrefilter,
    tokens: Seq<Seq<u8>>,
    needle: Seq<u8>,
    sums: Seq<u64>,
    k: int,
    interior: Seq<Token>,
    pos: Seq<int>,
    i: int,
) -> (kept: (Choice, TokenRange))
    requires
        pf.of(tokens, needle, sums),
        conformant(tokens),
        0 <= k < needle.len() <= usize::MAX,
        k <= 15,
        is_entry(tokens, needle, k),
        is_parse(tokens, needle, k, interior, pos),
        interior.len() <= usize::MAX,
        is_terminal(tokens, needle, interior, pos, i),
    ensures
        terminal_choice(tokens, needle, sums, k, interior, pos, i, kept.0, kept.1),
        match kept.0 {
            Choice::Point(a) => pf.cover().point_list().contains(interior[a as int]),
            Choice::Range => pf.cover().range_list().contains(kept.1),
            Choice::FirstSet => forall|t: Token|
                t < tokens.len() && ends_with(#[trigger] tokens[t as int], needle.take(k))
                    ==> pf.cover().point_list().contains(t),
        },
{
    let rest = needle.skip(pos[i]);
    lemma_parses_mean(tokens, needle, k, interior, pos, i);
    let t = if i == interior.len() {
        let t = choose|t: int| #[trigger]
            is_longest(tokens, rest, t) && pos[i] + tokens[t].len() == needle.len();
        assert(tokens[t] =~= rest) by {
            assert(rest.take(tokens[t].len() as int) =~= tokens[t]);
        }
        assert(tokens[t].take(rest.len() as int) =~= rest);
        t
    } else {
        choose|t: int| 0 <= t < tokens.len() && starts_with(#[trigger] tokens[t], rest)
    };
    let range = some_range(tokens, rest, t, t);
    let set = if has_set(tokens, needle, k) {
        Some(set_mass(tokens, needle, sums, k))
    } else {
        None
    };
    let choice = some_choice(sums, interior, i, range_mass(sums, range), set);
    assert(terminal_choice(tokens, needle, sums, k, interior, pos, i, choice, range));
    assert forall|p: IdProbe| #[trigger]
        choice_gives(tokens, needle, k, interior, choice, range, p) implies is_probe(
        tokens,
        needle,
        sums,
        p,
    ) by {
        assert(probed_by(tokens, needle, sums, k, interior, pos, i, p));
        assert(probed_at(tokens, needle, sums, k, p));
        assert(probed_upto(tokens, needle, sums, kmax(needle.len() as int), p));
    }
    match choice {
        Choice::Point(a) => {
            assert(choice_gives(
                tokens,
                needle,
                k,
                interior,
                choice,
                range,
                IdProbe::Point(interior[a as int]),
            ));
        },
        Choice::Range => {
            assert(choice_gives(
                tokens,
                needle,
                k,
                interior,
                choice,
                range,
                IdProbe::Range(range),
            ));
        },
        Choice::FirstSet => {
            assert forall|u: Token|
                u < tokens.len() && ends_with(
                    #[trigger] tokens[u as int],
                    needle.take(k),
                ) implies pf.cover().point_list().contains(u) by {
                assert(choice_gives(
                    tokens,
                    needle,
                    k,
                    interior,
                    choice,
                    range,
                    IdProbe::Point(u),
                ));
            }
        },
    }
    (choice, range)
}

/// A point is a token that contains the whole needle, or what some terminal of
/// an alignment that can occur keeps: an interior token, or one of its
/// first-token set.
pub proof fn point_reason(
    pf: &ContainsPrefilter,
    tokens: Seq<Seq<u8>>,
    needle: Seq<u8>,
    sums: Seq<u64>,
    t: Token,
) -> (r: Option<(int, Seq<Token>, Seq<int>, int, Choice, TokenRange)>)
    requires
        pf.of(tokens, needle, sums),
        tokens.len() <= 65536,
        pf.cover().point_list().contains(t),
    ensures
        match r {
            None => t < tokens.len() && contains(tokens[t as int], needle),
            Some((k, interior, pos, i, choice, range)) => {
                &&& 0 <= k < needle.len()
                &&& k <= 15
                &&& is_entry(tokens, needle, k)
                &&& is_parse(tokens, needle, k, interior, pos)
                &&& is_terminal(tokens, needle, interior, pos, i)
                &&& terminal_choice(tokens, needle, sums, k, interior, pos, i, choice, range)
                &&& match choice {
                    Choice::Point(a) => t == interior[a as int],
                    Choice::Range => false,
                    Choice::FirstSet => t < tokens.len() && ends_with(
                        tokens[t as int],
                        needle.take(k),
                    ),
                }
            },
        },
{
    let p = IdProbe::Point(t);
    if t < tokens.len() && contains(tokens[t as int], needle) {
        None
    } else {
        Some(probe_reason(tokens, needle, sums, p))
    }
}

/// A range is what some terminal of an alignment that can occur keeps: the
/// tokens that begin with what is left of the needle there.
pub proof fn range_reason(
    pf: &ContainsPrefilter,
    tokens: Seq<Seq<u8>>,
    needle: Seq<u8>,
    sums: Seq<u64>,
    x: TokenRange,
) -> (r: (int, Seq<Token>, Seq<int>, int))
    requires
        pf.of(tokens, needle, sums),
        tokens.len() <= 65536,
        pf.cover().range_list().contains(x),
    ensures
        ({
            let (k, interior, pos, i) = r;
            &&& 0 <= k < needle.len()
            &&& k <= 15
            &&& is_entry(tokens, needle, k)
            &&& is_parse(tokens, needle, k, interior, pos)
            &&& is_terminal(tokens, needle, interior, pos, i)
            &&& terminal_choice(tokens, needle, sums, k, interior, pos, i, Choice::Range, x)
        }),
{
    let (k, interior, pos, i, choice, range) = probe_reason(
        tokens,
        needle,
        sums,
        IdProbe::Range(x),
    );
    (k, interior, pos, i)
}

proof fn probe_reason(
    tokens: Seq<Seq<u8>>,
    needle: Seq<u8>,
    sums: Seq<u64>,
    p: IdProbe,
) -> (r: (int, Seq<Token>, Seq<int>, int, Choice, TokenRange))
    requires
        probed_upto(tokens, needle, sums, kmax(needle.len() as int), p),
        tokens.len() <= 65536,
    ensures
        0 <= r.0 < needle.len(),
        r.0 <= 15,
        is_entry(tokens, needle, r.0),
        is_parse(tokens, needle, r.0, r.1, r.2),
        is_terminal(tokens, needle, r.1, r.2, r.3),
        terminal_choice(tokens, needle, sums, r.0, r.1, r.2, r.3, r.4, r.5),
        choice_gives(tokens, needle, r.0, r.1, r.4, r.5, p),
{
    let k = choose|k: int|
        0 <= k < kmax(needle.len() as int) && #[trigger] probed_at(tokens, needle, sums, k, p);
    lemma_entries_mean(tokens, needle, k);
    let (interior, pos, i) = choose|interior: Seq<Token>, pos: Seq<int>, i: int|
        is_terminal(tokens, needle, interior, pos, i) && #[trigger] is_parse(
            tokens,
            needle,
            k,
            interior,
            pos,
        ) && #[trigger] probed_by(tokens, needle, sums, k, interior, pos, i, p);
    let (choice, range) = choose|choice: Choice, range: TokenRange| #[trigger]
        terminal_choice(tokens, needle, sums, k, interior, pos, i, choice, range)
            && #[trigger] choice_gives(tokens, needle, k, interior, choice, range, p);
    (k, interior, pos, i, choice, range)
}

/// Ranges are in order just when each begins before the next, or begins with it
/// and ends before it.
pub proof fn lemma_range_order_means(s: Seq<TokenRange>)
    ensures
        ranges_sorted(s) <==> forall|i: int, j: int|
            0 <= i < j < s.len() ==> (#[trigger] s[i]).begin < (#[trigger] s[j]).begin || (s[i].begin
                == s[j].begin && s[i].last < s[j].last),
{
    if ranges_sorted(s) {
        assert forall|i: int, j: int| 0 <= i < j < s.len() implies (#[trigger] s[i]).begin < (
        #[trigger] s[j]).begin || (s[i].begin == s[j].begin && s[i].last < s[j].last) by {
            assert(range_before(s[i], s[j]));
        }
    }
}

} // verus!
