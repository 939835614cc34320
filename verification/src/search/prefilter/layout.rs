//! What the alignment graph says of rows: every occurrence of the needle in a
//! greedily tokenized row lies inside one token, or is laid out along a path.

use crate::dictionary::{
    codes_ok, decode, lemma_decode_concat, lemma_decode_one, lemma_decode_take, lemma_start,
    locate, start,
};
use crate::order::{conformant, lemma_sorted_unique, sized};
use crate::search::lookup::is_longest;
use crate::search::prefilter::graph::{
    can_end, ends_from, entering, enters_at, is_entry, is_graph, is_step, kmax, lemma_edge,
    lemma_entering, lemma_has_entry, lemma_reached, lemma_state, points_from, probes, reached,
    steps_to, Edge, ProbeSet,
};
use crate::search::prefilter::mincut::{all_cuttable, is_path, meets, separates};
use crate::search::tokenize::{is_greedy, lemma_first, lemma_some_token};
use crate::text::{
    contains, ends_with, lemma_prefix_concat, lemma_prefix_transitive, occurs_at, starts_with,
};
use crate::types::{Token, MAX_TOKEN_SIZE};
use vstd::prelude::*;

verus! {

/// Token `t` can be the step of the edge.
pub open spec fn admits(
    e: Edge,
    ids: Seq<Token>,
    tokens: Seq<Seq<u8>>,
    needle: Seq<u8>,
    t: int,
) -> bool {
    probes(e, ids, t) || (e.probe is TooBigSet && ends_with(tokens[t], needle.take(e.to as int)))
}

/// The codes from `at` on are the steps of the path.
pub open spec fn follows(
    edges: Seq<Edge>,
    ids: Seq<Token>,
    tokens: Seq<Seq<u8>>,
    needle: Seq<u8>,
    path: Seq<int>,
    codes: Seq<Token>,
    at: int,
) -> bool {
    &&& 0 <= at
    &&& at + path.len() <= codes.len()
    &&& forall|k: int|
        0 <= k < path.len() ==> admits(
            edges[#[trigger] path[k]],
            ids,
            tokens,
            needle,
            codes[at + k] as int,
        )
}

/// Some codes in turn are the steps of a whole path of the graph.
pub open spec fn laid_out(
    edges: Seq<Edge>,
    ids: Seq<Token>,
    tokens: Seq<Seq<u8>>,
    needle: Seq<u8>,
    codes: Seq<Token>,
) -> bool {
    exists|path: Seq<int>, at: int| #[trigger]
        is_path(edges, path, 0, needle.len() as int) && #[trigger] follows(
            edges,
            ids,
            tokens,
            needle,
            path,
            codes,
            at,
        )
}

/// Some code's token contains the whole needle.
pub open spec fn holds_whole(tokens: Seq<Seq<u8>>, needle: Seq<u8>, codes: Seq<Token>) -> bool {
    exists|h: int| 0 <= h < codes.len() && contains(tokens[#[trigger] codes[h] as int], needle)
}

proof fn lemma_follows_push(
    edges: Seq<Edge>,
    ids: Seq<Token>,
    tokens: Seq<Seq<u8>>,
    needle: Seq<u8>,
    path: Seq<int>,
    codes: Seq<Token>,
    at: int,
    i: int,
)
    requires
        follows(edges, ids, tokens, needle, path, codes, at),
        at + path.len() < codes.len(),
        admits(edges[i], ids, tokens, needle, codes[at + path.len()] as int),
    ensures
        follows(edges, ids, tokens, needle, path.push(i), codes, at),
{
    let longer = path.push(i);
    assert forall|k: int| 0 <= k < longer.len() implies admits(
        edges[#[trigger] longer[k]],
        ids,
        tokens,
        needle,
        codes[at + k] as int,
    ) by {
        if k < path.len() {
            assert(longer[k] == path[k]);
        }
    }
}

proof fn lemma_path_push(edges: Seq<Edge>, path: Seq<int>, from: int, to: int, i: int)
    requires
        is_path(edges, path, from, to),
        0 <= i < edges.len(),
        edges[i].from == to,
    ensures
        is_path(edges, path.push(i), from, edges[i].to as int),
{
    assert(path.push(i).drop_last() =~= path);
}

/// What the row's bytes from a token on are.
proof fn lemma_suffix(tokens: Seq<Seq<u8>>, codes: Seq<Token>, j: int)
    requires
        0 <= j <= codes.len(),
    ensures
        decode(tokens, codes.skip(j)) == decode(tokens, codes).skip(start(tokens, codes, j)),
        decode(tokens, codes) == decode(tokens, codes.take(j)) + decode(tokens, codes.skip(j)),
{
    assert(codes.take(j) + codes.skip(j) =~= codes);
    lemma_decode_concat(tokens, codes.take(j), codes.skip(j));
    assert(decode(tokens, codes).skip(start(tokens, codes, j)) =~= decode(tokens, codes.skip(j)));
}

/// The token that begins at offset `o` of an occurrence ends it, or is the
/// longest that what remains of the needle begins with.
pub proof fn lemma_token_in_needle(
    tokens: Seq<Seq<u8>>,
    needle: Seq<u8>,
    codes: Seq<Token>,
    x: int,
    o: int,
    j: int,
)
    requires
        sized(tokens),
        is_greedy(tokens, codes),
        occurs_at(decode(tokens, codes), needle, x),
        0 <= o < needle.len(),
        0 <= j < codes.len(),
        start(tokens, codes, j) == x + o,
    ensures
        codes[j] < tokens.len(),
        tokens[codes[j] as int].len() >= 1,
        start(tokens, codes, j + 1) == x + o + tokens[codes[j] as int].len(),
        o + tokens[codes[j] as int].len() >= needle.len() ==> starts_with(
            tokens[codes[j] as int],
            needle.skip(o),
        ),
        o + tokens[codes[j] as int].len() < needle.len() ==> is_longest(
            tokens,
            needle.skip(o),
            codes[j] as int,
        ) && j + 1 < codes.len(),
{
    let text = decode(tokens, codes);
    let n = needle.len() as int;
    let t = codes[j] as int;
    lemma_first(tokens, codes);
    let tok = tokens[t];
    let len = tok.len() as int;
    let rest = needle.skip(o);
    lemma_start(tokens, codes, j);
    lemma_suffix(tokens, codes, j);
    let after = decode(tokens, codes.skip(j));
    assert(is_longest(tokens, after, t));
    assert forall|i: int| 0 <= i < rest.len() implies text[x + o + i] == #[trigger] rest[i] by {
        assert(text.subrange(x, x + n)[o + i] == needle[o + i]);
    }
    assert forall|i: int| 0 <= i < len implies text[x + o + i] == #[trigger] tok[i] by {}
    assert(starts_with(after, rest)) by {
        assert(after.take(rest.len() as int) =~= rest);
    }
    if o + len >= n {
        assert(tok.take(rest.len() as int) =~= rest) by {
            assert forall|i: int| 0 <= i < rest.len() implies tok[i] == rest[i] by {
                assert(text[x + o + i] == tok[i]);
            }
        }
    } else {
        assert(rest.take(len) =~= tok) by {
            assert forall|i: int| 0 <= i < len implies rest[i] == tok[i] by {
                assert(text[x + o + i] == rest[i]);
            }
        }
        assert forall|u: int|
            0 <= u < tokens.len() && starts_with(rest, #[trigger] tokens[u]) implies tokens[u].len()
            <= len by {
            lemma_prefix_transitive(after, tokens[u], rest);
        }
        assert(j + 1 < codes.len()) by {
            if j + 1 == codes.len() {
                assert(start(tokens, codes, j + 1) == text.len());
            }
        }
    }
}

/// The edge into the sink that a token which ends the needle takes.
proof fn range_edge(
    edges: Seq<Edge>,
    ids: Seq<Token>,
    tokens: Seq<Seq<u8>>,
    needle: Seq<u8>,
    sums: Seq<u32>,
    o: int,
    t: int,
) -> (i: int)
    requires
        is_graph(edges, ids, tokens, needle, sums),
        0 <= o < needle.len(),
        reached(tokens, needle, o),
        0 <= t < tokens.len(),
        starts_with(tokens[t], needle.skip(o)),
    ensures
        0 <= i < edges.len(),
        edges[i].from == o,
        edges[i].to == needle.len(),
        edges[i].probe is Range,
        probes(edges[i], ids, t),
{
    lemma_state(edges, ids, tokens, needle, sums, o);
    assert(can_end(tokens, needle, o));
    let i = choose|i: int| 0 <= i < edges.len() && ends_from(#[trigger] edges[i], o);
    lemma_edge(edges, ids, tokens, needle, sums, i);
    assert(edges[i].probe->Range_0.has(t));
    i
}

/// The edge of a greedy step.
proof fn point_edge(
    edges: Seq<Edge>,
    ids: Seq<Token>,
    tokens: Seq<Seq<u8>>,
    needle: Seq<u8>,
    sums: Seq<u32>,
    o: int,
    t: Token,
) -> (i: int)
    requires
        is_graph(edges, ids, tokens, needle, sums),
        conformant(tokens),
        0 <= o < needle.len(),
        reached(tokens, needle, o),
        is_longest(tokens, needle.skip(o), t as int),
        o + tokens[t as int].len() < needle.len(),
    ensures
        0 <= i < edges.len(),
        edges[i].from == o,
        edges[i].to == o + tokens[t as int].len(),
        edges[i].probe == ProbeSet::Point(t),
        reached(tokens, needle, o + tokens[t as int].len()),
{
    let rest = needle.skip(o);
    let len = tokens[t as int].len() as int;
    let next = o + len;
    lemma_state(edges, ids, tokens, needle, sums, o);
    assert(is_step(tokens, needle, o, t, next - o));
    assert(steps_to(tokens, needle, o, next));
    let i = choose|i: int| 0 <= i < edges.len() && points_from(#[trigger] edges[i], o);
    lemma_edge(edges, ids, tokens, needle, sums, i);
    let u = edges[i].probe->Point_0;
    lemma_some_token(tokens, rest);
    assert(is_longest(tokens, rest, u as int));
    assert(tokens[u as int] == tokens[t as int]) by {
        assert(rest.take(tokens[u as int].len() as int) =~= tokens[u as int]);
        assert(rest.take(len) =~= tokens[t as int]);
    }
    lemma_sorted_unique(tokens, u as int, t as int);
    assert(tokens[t as int].len() >= 1);
    lemma_reached(tokens, needle, o, next);
    i
}

/// Goes on with a layout that has reached offset `o` of the needle before code
/// `j`, up to the needle's end.
proof fn layout_from(
    edges: Seq<Edge>,
    ids: Seq<Token>,
    tokens: Seq<Seq<u8>>,
    needle: Seq<u8>,
    sums: Seq<u32>,
    codes: Seq<Token>,
    x: int,
    o: int,
    j: int,
    path: Seq<int>,
) -> (r: Seq<int>)
    requires
        is_graph(edges, ids, tokens, needle, sums),
        conformant(tokens),
        is_greedy(tokens, codes),
        occurs_at(decode(tokens, codes), needle, x),
        0 <= o < needle.len(),
        reached(tokens, needle, o),
        0 <= j < codes.len(),
        start(tokens, codes, j) == x + o,
        is_path(edges, path, 0, o),
        follows(edges, ids, tokens, needle, path, codes, j - path.len()),
    ensures
        is_path(edges, r, 0, needle.len() as int),
        follows(edges, ids, tokens, needle, r, codes, j - path.len()),
    decreases needle.len() - o,
{
    let t = codes[j];
    lemma_token_in_needle(tokens, needle, codes, x, o, j);
    let len = tokens[t as int].len() as int;
    if o + len >= needle.len() {
        let i = range_edge(edges, ids, tokens, needle, sums, o, t as int);
        lemma_path_push(edges, path, 0, o, i);
        lemma_follows_push(edges, ids, tokens, needle, path, codes, j - path.len(), i);
        path.push(i)
    } else {
        let i = point_edge(edges, ids, tokens, needle, sums, o, t);
        lemma_path_push(edges, path, 0, o, i);
        lemma_follows_push(edges, ids, tokens, needle, path, codes, j - path.len(), i);
        layout_from(
            edges,
            ids,
            tokens,
            needle,
            sums,
            codes,
            x,
            o + len,
            j + 1,
            path.push(i),
        )
    }
}

/// Every row that contains the needle holds it in one token, or lays it out
/// along a path of the graph.
pub proof fn lemma_every_occurrence_is_laid_out(
    edges: Seq<Edge>,
    ids: Seq<Token>,
    tokens: Seq<Seq<u8>>,
    needle: Seq<u8>,
    sums: Seq<u32>,
    codes: Seq<Token>,
)
    requires
        is_graph(edges, ids, tokens, needle, sums),
        conformant(tokens),
        is_greedy(tokens, codes),
        needle.len() > 0,
        contains(decode(tokens, codes), needle),
    ensures
        holds_whole(tokens, needle, codes) || laid_out(edges, ids, tokens, needle, codes),
{
    let text = decode(tokens, codes);
    let n = needle.len() as int;
    let x = choose|x: int| occurs_at(text, needle, x);
    lemma_first(tokens, codes);
    let j = locate(tokens, codes, x);
    lemma_start(tokens, codes, j);
    let tok = tokens[codes[j] as int];
    let a = start(tokens, codes, j);
    let b = start(tokens, codes, j + 1);
    assert forall|i: int| 0 <= i < n implies text[x + i] == #[trigger] needle[i] by {
        assert(text.subrange(x, x + n)[i] == needle[i]);
    }
    if x + n <= b {
        assert(occurs_at(tok, needle, x - a)) by {
            assert(tok.subrange(x - a, x - a + n) =~= needle) by {
                assert forall|i: int| 0 <= i < n implies tok[x - a + i] == needle[i] by {
                    assert(text[a + (x - a + i)] == tok[x - a + i]);
                }
            }
        }
        assert(contains(tok, needle));
        assert(holds_whole(tokens, needle, codes));
    } else if x == a {
        let none: Seq<int> = Seq::empty();
        assert(is_path(edges, none, 0, 0));
        assert(is_entry(tokens, needle, 0));
        assert(reached(tokens, needle, 0));
        assert(follows(edges, ids, tokens, needle, none, codes, j));
        let r = layout_from(edges, ids, tokens, needle, sums, codes, x, 0, j, none);
        assert(is_path(edges, r, 0, n) && follows(edges, ids, tokens, needle, r, codes, j));
    } else {
        let k = b - x;
        let head = needle.take(k);
        assert(ends_with(tok, head)) by {
            assert(tok.skip(tok.len() - k) =~= head) by {
                assert forall|i: int| 0 <= i < k implies tok[tok.len() - k + i] == head[i] by {
                    assert(text[a + (tok.len() - k + i)] == tok[tok.len() - k + i]);
                    assert(needle[i] == head[i]);
                }
            }
        }
        assert(tok.len() <= MAX_TOKEN_SIZE);
        assert(1 <= k < kmax(n));
        let all = entering(tokens, needle, k, tokens.len() as int);
        lemma_entering(tokens, needle, k, tokens.len() as int);
        assert(all.contains(codes[j]));
        assert(is_entry(tokens, needle, k));
        lemma_has_entry(edges, ids, tokens, needle, sums, k);
        let i = choose|i: int| 0 <= i < edges.len() && enters_at(#[trigger] edges[i], k);
        lemma_edge(edges, ids, tokens, needle, sums, i);
        assert(admits(edges[i], ids, tokens, needle, codes[j] as int));
        let none: Seq<int> = Seq::empty();
        assert(is_path(edges, none, 0, 0));
        assert(follows(edges, ids, tokens, needle, none, codes, j));
        lemma_path_push(edges, none, 0, 0, i);
        lemma_follows_push(edges, ids, tokens, needle, none, codes, j, i);
        assert(j + 1 < codes.len()) by {
            if j + 1 == codes.len() {
                assert(b == text.len());
            }
        }
        let r = layout_from(
            edges,
            ids,
            tokens,
            needle,
            sums,
            codes,
            x,
            k,
            j + 1,
            none.push(i),
        );
        assert(is_path(edges, r, 0, n) && follows(edges, ids, tokens, needle, r, codes, j));
    }
}

/// Token `t` is in a cover: it contains the whole needle, or an edge of the
/// cut probes for it.
pub open spec fn in_cover(
    edges: Seq<Edge>,
    ids: Seq<Token>,
    tokens: Seq<Seq<u8>>,
    needle: Seq<u8>,
    cut: spec_fn(int) -> bool,
    t: int,
) -> bool {
    contains(tokens[t], needle) || exists|i: int|
        0 <= i < edges.len() && #[trigger] cut(i) && probes(edges[i], ids, t)
}

/// A cut of the graph, with the tokens that contain the whole needle, is a
/// sound cover: every greedily tokenized row that contains the needle holds a
/// covered token.
pub proof fn lemma_cut_is_sound(
    edges: Seq<Edge>,
    ids: Seq<Token>,
    tokens: Seq<Seq<u8>>,
    needle: Seq<u8>,
    sums: Seq<u32>,
    cut: spec_fn(int) -> bool,
    codes: Seq<Token>,
)
    requires
        is_graph(edges, ids, tokens, needle, sums),
        conformant(tokens),
        is_greedy(tokens, codes),
        needle.len() > 0,
        contains(decode(tokens, codes), needle),
        separates(edges, cut, 0, needle.len() as int),
        forall|i: int| #[trigger] cut(i) ==> all_cuttable(edges)(i),
    ensures
        exists|h: int|
            0 <= h < codes.len() && in_cover(
                edges,
                ids,
                tokens,
                needle,
                cut,
                #[trigger] codes[h] as int,
            ),
{
    lemma_every_occurrence_is_laid_out(edges, ids, tokens, needle, sums, codes);
    if holds_whole(tokens, needle, codes) {
        let h = choose|h: int|
            0 <= h < codes.len() && contains(tokens[#[trigger] codes[h] as int], needle);
        assert(in_cover(edges, ids, tokens, needle, cut, codes[h] as int));
    } else {
        let (path, at) = choose|path: Seq<int>, at: int| #[trigger]
            is_path(edges, path, 0, needle.len() as int) && #[trigger] follows(
                edges,
                ids,
                tokens,
                needle,
                path,
                codes,
                at,
            );
        assert(meets(path, cut));
        let k = choose|k: int| 0 <= k < path.len() && cut(#[trigger] path[k]);
        assert(all_cuttable(edges)(path[k]));
        assert(admits(edges[path[k]], ids, tokens, needle, codes[at + k] as int));
        assert(in_cover(edges, ids, tokens, needle, cut, codes[at + k] as int));
    }
}

/// From offset `o` of the needle the codes from `j` on lead to its end.
pub open spec fn goes_on(
    edges: Seq<Edge>,
    ids: Seq<Token>,
    tokens: Seq<Seq<u8>>,
    needle: Seq<u8>,
    codes: Seq<Token>,
    o: int,
    j: int,
) -> bool
    decreases codes.len() - j,
{
    o == needle.len() || (0 <= j < codes.len() && exists|i: int|
        0 <= i < edges.len() && (#[trigger] edges[i]).from == o && admits(
            edges[i],
            ids,
            tokens,
            needle,
            codes[j] as int,
        ) && goes_on(edges, ids, tokens, needle, codes, edges[i].to as int, j + 1))
}

/// The codes before `j` lead from the source to offset `o` of the needle.
pub open spec fn leads_back(
    edges: Seq<Edge>,
    ids: Seq<Token>,
    tokens: Seq<Seq<u8>>,
    needle: Seq<u8>,
    codes: Seq<Token>,
    o: int,
    j: int,
) -> bool
    decreases j,
{
    o == 0 || (0 < j <= codes.len() && exists|i: int|
        0 <= i < edges.len() && (#[trigger] edges[i]).to == o && admits(
            edges[i],
            ids,
            tokens,
            needle,
            codes[j - 1] as int,
        ) && leads_back(edges, ids, tokens, needle, codes, edges[i].from as int, j - 1))
}

/// Some occurrence of the needle has the code at `h` as one of its steps: its
/// token contains the whole needle, or is a step with the rest on both sides.
pub open spec fn passes(
    edges: Seq<Edge>,
    ids: Seq<Token>,
    tokens: Seq<Seq<u8>>,
    needle: Seq<u8>,
    codes: Seq<Token>,
    h: int,
) -> bool {
    ||| contains(tokens[codes[h] as int], needle)
    ||| exists|i: int|
        0 <= i < edges.len() && probes(#[trigger] edges[i], ids, codes[h] as int) && leads_back(
            edges,
            ids,
            tokens,
            needle,
            codes,
            edges[i].from as int,
            h,
        ) && goes_on(edges, ids, tokens, needle, codes, edges[i].to as int, h + 1)
}

/// What a token that takes an edge spells: what the needle holds between the
/// edge's ends, but for what an entry holds before and an end after.
pub proof fn lemma_edge_spells(
    edges: Seq<Edge>,
    ids: Seq<Token>,
    tokens: Seq<Seq<u8>>,
    needle: Seq<u8>,
    sums: Seq<u32>,
    i: int,
    t: int,
)
    requires
        is_graph(edges, ids, tokens, needle, sums),
        conformant(tokens),
        0 <= i < edges.len(),
        0 <= t < tokens.len(),
        admits(edges[i], ids, tokens, needle, t),
    ensures
        edges[i].from < edges[i].to <= needle.len(),
        edges[i].probe is Range <==> edges[i].to == needle.len(),
        edges[i].probe is Range ==> starts_with(tokens[t], needle.skip(edges[i].from as int)),
        edges[i].probe is Point ==> tokens[t] == needle.subrange(
            edges[i].from as int,
            edges[i].to as int,
        ),
        edges[i].probe is FirstSet || edges[i].probe is TooBigSet ==> edges[i].from == 0
            && ends_with(tokens[t], needle.take(edges[i].to as int)),
{
    let e = edges[i];
    lemma_edge(edges, ids, tokens, needle, sums, i);
    match e.probe {
        ProbeSet::Point(u) => {
            let rest = needle.skip(e.from as int);
            lemma_step_inside(tokens, needle, e.from as int, u, e.to - e.from);
            lemma_some_token(tokens, rest);
            assert(rest.take(tokens[t].len() as int) =~= needle.subrange(
                e.from as int,
                e.to as int,
            ));
        },
        ProbeSet::FirstSet { start, len } => {
            lemma_entering(tokens, needle, e.to as int, tokens.len() as int);
        },
        _ => {},
    }
}

/// A step stays inside the needle.
pub proof fn lemma_step_inside(tokens: Seq<Seq<u8>>, needle: Seq<u8>, o: int, t: Token, len: int)
    requires
        conformant(tokens),
        0 <= o,
        o + len < needle.len(),
        is_step(tokens, needle, o, t, len),
    ensures
        1 <= len,
        is_longest(tokens, needle.skip(o), t as int),
        len == tokens[t as int].len(),
{
    if o <= needle.len() {
        let rest = needle.skip(o);
        if rest.len() > 0 {
            lemma_some_token(tokens, rest);
        }
        if is_longest(tokens, rest, t as int) {
            assert(tokens[t as int].len() >= 1);
        }
    }
}

proof fn lemma_ends_concat(a: Seq<u8>, b: Seq<u8>, head: Seq<u8>)
    requires
        ends_with(a, head),
    ensures
        ends_with(a + b, head + b),
{
    let s = a + b;
    assert(s.skip(s.len() - (head + b).len()) =~= a.skip(a.len() - head.len()) + b);
}

proof fn lemma_ends_more(a: Seq<u8>, b: Seq<u8>, tail: Seq<u8>)
    requires
        ends_with(b, tail),
    ensures
        ends_with(a + b, tail),
{
    let s = a + b;
    assert(s.skip(s.len() - tail.len()) =~= b.skip(b.len() - tail.len()));
}

proof fn lemma_starts_more(a: Seq<u8>, b: Seq<u8>, head: Seq<u8>)
    requires
        starts_with(a, head),
    ensures
        starts_with(a + b, head),
{
    assert((a + b).take(head.len() as int) =~= a.take(head.len() as int));
}

/// The codes that lead to an offset spell the needle up to it.
proof fn lemma_back_spells(
    edges: Seq<Edge>,
    ids: Seq<Token>,
    tokens: Seq<Seq<u8>>,
    needle: Seq<u8>,
    sums: Seq<u32>,
    codes: Seq<Token>,
    o: int,
    j: int,
)
    requires
        is_graph(edges, ids, tokens, needle, sums),
        conformant(tokens),
        codes_ok(codes, tokens.len()),
        0 <= o < needle.len(),
        0 <= j <= codes.len(),
        leads_back(edges, ids, tokens, needle, codes, o, j),
    ensures
        ends_with(decode(tokens, codes.take(j)), needle.take(o)),
    decreases j,
{
    let text = decode(tokens, codes.take(j));
    if o == 0 {
        assert(text.skip(text.len() as int) =~= needle.take(0));
    } else {
        let i = choose|i: int|
            0 <= i < edges.len() && (#[trigger] edges[i]).to == o && admits(
                edges[i],
                ids,
                tokens,
                needle,
                codes[j - 1] as int,
            ) && leads_back(edges, ids, tokens, needle, codes, edges[i].from as int, j - 1);
        let t = codes[j - 1] as int;
        assert(codes[j - 1] < tokens.len());
        let from = edges[i].from as int;
        lemma_edge_spells(edges, ids, tokens, needle, sums, i, t);
        lemma_decode_take(tokens, codes, j - 1);
        let before = decode(tokens, codes.take(j - 1));
        assert(text == before + tokens[t]);
        if edges[i].probe is Point {
            lemma_back_spells(edges, ids, tokens, needle, sums, codes, from, j - 1);
            lemma_ends_concat(before, tokens[t], needle.take(from));
            assert(needle.take(from) + tokens[t] =~= needle.take(o));
        } else {
            lemma_ends_more(before, tokens[t], needle.take(o));
        }
    }
}

/// The codes that lead on from an offset spell the rest of the needle.
proof fn lemma_on_spells(
    edges: Seq<Edge>,
    ids: Seq<Token>,
    tokens: Seq<Seq<u8>>,
    needle: Seq<u8>,
    sums: Seq<u32>,
    codes: Seq<Token>,
    o: int,
    j: int,
)
    requires
        is_graph(edges, ids, tokens, needle, sums),
        conformant(tokens),
        codes_ok(codes, tokens.len()),
        0 < o <= needle.len(),
        0 <= j <= codes.len(),
        goes_on(edges, ids, tokens, needle, codes, o, j),
    ensures
        starts_with(decode(tokens, codes.skip(j)), needle.skip(o)),
    decreases codes.len() - j,
{
    let text = decode(tokens, codes.skip(j));
    if o == needle.len() {
        assert(text.take(0) =~= needle.skip(o));
    } else {
        let i = choose|i: int|
            0 <= i < edges.len() && (#[trigger] edges[i]).from == o && admits(
                edges[i],
                ids,
                tokens,
                needle,
                codes[j] as int,
            ) && goes_on(edges, ids, tokens, needle, codes, edges[i].to as int, j + 1);
        let t = codes[j] as int;
        assert(codes[j] < tokens.len());
        let to = edges[i].to as int;
        lemma_edge_spells(edges, ids, tokens, needle, sums, i, t);
        assert(codes.skip(j) =~= seq![codes[j]] + codes.skip(j + 1));
        lemma_decode_concat(tokens, seq![codes[j]], codes.skip(j + 1));
        lemma_decode_one(tokens, codes[j]);
        let after = decode(tokens, codes.skip(j + 1));
        if edges[i].probe is Point {
            lemma_on_spells(edges, ids, tokens, needle, sums, codes, to, j + 1);
            lemma_prefix_concat(tokens[t], after, needle.skip(to));
            assert(tokens[t] + needle.skip(to) =~= needle.skip(o));
        } else {
            lemma_starts_more(tokens[t], after, needle.skip(o));
        }
    }
}

/// What ends with the start of the needle, and then begins with the rest of
/// it, contains it.
proof fn lemma_join(a: Seq<u8>, b: Seq<u8>, needle: Seq<u8>, o: int)
    requires
        0 <= o <= needle.len(),
        ends_with(a, needle.take(o)),
        starts_with(b, needle.skip(o)),
    ensures
        contains(a + b, needle),
{
    let x = a.len() - o;
    let s = a + b;
    assert(s.subrange(x, x + needle.len()) =~= needle) by {
        assert forall|i: int| 0 <= i < needle.len() implies s[x + i] == needle[i] by {
            if i < o {
                assert(a.skip(a.len() - o)[i] == needle.take(o)[i]);
            } else {
                assert(b.take(needle.len() - o)[i - o] == needle.skip(o)[i - o]);
            }
        }
    }
    assert(occurs_at(s, needle, x));
}

/// A code that passes is part of an occurrence.
#[verifier::spinoff_prover]
#[verifier::rlimit(40)]
pub proof fn lemma_passing_is_exact(
    edges: Seq<Edge>,
    ids: Seq<Token>,
    tokens: Seq<Seq<u8>>,
    needle: Seq<u8>,
    sums: Seq<u32>,
    codes: Seq<Token>,
    h: int,
)
    requires
        is_graph(edges, ids, tokens, needle, sums),
        conformant(tokens),
        codes_ok(codes, tokens.len()),
        0 <= h < codes.len(),
        passes(edges, ids, tokens, needle, codes, h),
    ensures
        contains(decode(tokens, codes), needle),
{
    let t = codes[h] as int;
    assert(codes[h] < tokens.len());
    let before = decode(tokens, codes.take(h));
    let after = decode(tokens, codes.skip(h + 1));
    lemma_decode_take(tokens, codes, h);
    lemma_suffix(tokens, codes, h + 1);
    assert(decode(tokens, codes) == before + tokens[t] + after);
    if contains(tokens[t], needle) {
        lemma_contains_middle(before, tokens[t], after, needle);
    } else {
        let i = choose|i: int|
            0 <= i < edges.len() && probes(#[trigger] edges[i], ids, t) && leads_back(
                edges,
                ids,
                tokens,
                needle,
                codes,
                edges[i].from as int,
                h,
            ) && goes_on(edges, ids, tokens, needle, codes, edges[i].to as int, h + 1);
        let from = edges[i].from as int;
        let to = edges[i].to as int;
        lemma_edge_spells(edges, ids, tokens, needle, sums, i, t);
        lemma_back_spells(edges, ids, tokens, needle, sums, codes, from, h);
        lemma_on_spells(edges, ids, tokens, needle, sums, codes, to, h + 1);
        if edges[i].probe is Range {
            lemma_join_range(before, tokens[t], after, needle, from);
        } else if edges[i].probe is Point {
            lemma_ends_concat(before, tokens[t], needle.take(from));
            assert(needle.take(from) + tokens[t] =~= needle.take(to));
            lemma_join(before + tokens[t], after, needle, to);
        } else {
            lemma_ends_more(before, tokens[t], needle.take(to));
            lemma_join(before + tokens[t], after, needle, to);
        }
    }
}

proof fn lemma_contains_middle(a: Seq<u8>, m: Seq<u8>, b: Seq<u8>, needle: Seq<u8>)
    requires
        contains(m, needle),
    ensures
        contains(a + m + b, needle),
{
    let p = choose|p: int| occurs_at(m, needle, p);
    let s = a + m + b;
    let x = a.len() + p;
    assert(s.subrange(x, x + needle.len()) =~= m.subrange(p, p + needle.len()));
    assert(occurs_at(s, needle, x));
}

proof fn lemma_join_range(a: Seq<u8>, m: Seq<u8>, b: Seq<u8>, needle: Seq<u8>, o: int)
    requires
        0 <= o <= needle.len(),
        ends_with(a, needle.take(o)),
        starts_with(m, needle.skip(o)),
    ensures
        contains(a + m + b, needle),
{
    lemma_starts_more(m, b, needle.skip(o));
    lemma_join(a, m + b, needle, o);
    assert(a + (m + b) =~= a + m + b);
}

/// A path that codes follow leads back from its end.
proof fn lemma_path_back(
    edges: Seq<Edge>,
    ids: Seq<Token>,
    tokens: Seq<Seq<u8>>,
    needle: Seq<u8>,
    path: Seq<int>,
    codes: Seq<Token>,
    at: int,
    v: int,
)
    requires
        is_path(edges, path, 0, v),
        follows(edges, ids, tokens, needle, path, codes, at),
    ensures
        leads_back(edges, ids, tokens, needle, codes, v, at + path.len()),
    decreases path.len(),
{
    if path.len() > 0 {
        let k = path.len() - 1;
        let i = path[k];
        let front = path.drop_last();
        assert forall|q: int| 0 <= q < front.len() implies admits(
            edges[#[trigger] front[q]],
            ids,
            tokens,
            needle,
            codes[at + q] as int,
        ) by {
            assert(front[q] == path[q]);
        }
        lemma_path_back(edges, ids, tokens, needle, front, codes, at, edges[i].from as int);
        assert(admits(edges[i], ids, tokens, needle, codes[at + k] as int));
        assert(edges[i].to == v);
    }
}

/// The part of a path before its step `k` leads to where that step leaves.
proof fn lemma_path_take(edges: Seq<Edge>, path: Seq<int>, from: int, to: int, k: int)
    requires
        is_path(edges, path, from, to),
        0 <= k < path.len(),
    ensures
        0 <= path[k] < edges.len(),
        is_path(edges, path.take(k), from, edges[path[k]].from as int),
        is_path(edges, path.take(k + 1), from, edges[path[k]].to as int),
        k + 1 < path.len() ==> edges[path[k + 1]].from == edges[path[k]].to,
        k + 1 == path.len() ==> edges[path[k]].to == to,
    decreases path.len(),
{
    let front = path.drop_last();
    if k == path.len() - 1 {
        assert(path.take(k) =~= front);
        assert(path.take(k + 1) =~= path);
    } else {
        lemma_path_take(edges, front, from, edges[path.last()].from as int, k);
        assert(front.take(k) =~= path.take(k));
        assert(front.take(k + 1) =~= path.take(k + 1));
        if k + 1 < front.len() {
            assert(front[k + 1] == path[k + 1]);
        }
    }
}

/// A path that codes follow goes on from each of its steps.
proof fn lemma_path_on(
    edges: Seq<Edge>,
    ids: Seq<Token>,
    tokens: Seq<Seq<u8>>,
    needle: Seq<u8>,
    path: Seq<int>,
    codes: Seq<Token>,
    at: int,
    k: int,
)
    requires
        is_path(edges, path, 0, needle.len() as int),
        follows(edges, ids, tokens, needle, path, codes, at),
        0 <= k < path.len(),
    ensures
        goes_on(edges, ids, tokens, needle, codes, edges[path[k]].to as int, at + k + 1),
    decreases path.len() - k,
{
    lemma_path_take(edges, path, 0, needle.len() as int, k);
    if k + 1 < path.len() {
        lemma_path_on(edges, ids, tokens, needle, path, codes, at, k + 1);
        lemma_path_take(edges, path, 0, needle.len() as int, k + 1);
        assert(admits(edges[path[k + 1]], ids, tokens, needle, codes[at + (k + 1)] as int));
    }
}

/// Every greedily tokenized row that contains the needle holds a covered code
/// that passes, and a row that holds one that passes contains the needle.
pub proof fn lemma_cover_and_walk_are_exact(
    edges: Seq<Edge>,
    ids: Seq<Token>,
    tokens: Seq<Seq<u8>>,
    needle: Seq<u8>,
    sums: Seq<u32>,
    cut: spec_fn(int) -> bool,
    codes: Seq<Token>,
)
    requires
        is_graph(edges, ids, tokens, needle, sums),
        conformant(tokens),
        is_greedy(tokens, codes),
        needle.len() > 0,
        separates(edges, cut, 0, needle.len() as int),
        forall|i: int| #[trigger] cut(i) ==> all_cuttable(edges)(i),
    ensures
        contains(decode(tokens, codes), needle) <==> exists|h: int|
            0 <= h < codes.len() && in_cover(
                edges,
                ids,
                tokens,
                needle,
                cut,
                #[trigger] codes[h] as int,
            ) && passes(edges, ids, tokens, needle, codes, h),
{
    let n = needle.len() as int;
    lemma_first(tokens, codes);
    if contains(decode(tokens, codes), needle) {
        lemma_every_occurrence_is_laid_out(edges, ids, tokens, needle, sums, codes);
        if holds_whole(tokens, needle, codes) {
            let h = choose|h: int|
                0 <= h < codes.len() && contains(tokens[#[trigger] codes[h] as int], needle);
            assert(in_cover(edges, ids, tokens, needle, cut, codes[h] as int));
            assert(passes(edges, ids, tokens, needle, codes, h));
        } else {
            let (path, at) = choose|path: Seq<int>, at: int| #[trigger]
                is_path(edges, path, 0, n) && #[trigger] follows(
                    edges,
                    ids,
                    tokens,
                    needle,
                    path,
                    codes,
                    at,
                );
            assert(meets(path, cut));
            let k = choose|k: int| 0 <= k < path.len() && cut(#[trigger] path[k]);
            let i = path[k];
            assert(all_cuttable(edges)(i));
            let h = at + k;
            assert(admits(edges[i], ids, tokens, needle, codes[at + k] as int));
            assert(probes(edges[i], ids, codes[h] as int));
            assert(in_cover(edges, ids, tokens, needle, cut, codes[h] as int));
            lemma_path_take(edges, path, 0, n, k);
            let front = path.take(k);
            assert forall|q: int| 0 <= q < front.len() implies admits(
                edges[#[trigger] front[q]],
                ids,
                tokens,
                needle,
                codes[at + q] as int,
            ) by {
                assert(front[q] == path[q]);
            }
            lemma_path_back(
                edges,
                ids,
                tokens,
                needle,
                front,
                codes,
                at,
                edges[i].from as int,
            );
            lemma_path_on(edges, ids, tokens, needle, path, codes, at, k);
            assert(passes(edges, ids, tokens, needle, codes, h));
        }
    }
    if exists|h: int|
        0 <= h < codes.len() && in_cover(
            edges,
            ids,
            tokens,
            needle,
            cut,
            #[trigger] codes[h] as int,
        ) && passes(edges, ids, tokens, needle, codes, h) {
        let h = choose|h: int|
            0 <= h < codes.len() && in_cover(
                edges,
                ids,
                tokens,
                needle,
                cut,
                #[trigger] codes[h] as int,
            ) && passes(edges, ids, tokens, needle, codes, h);
        lemma_passing_is_exact(edges, ids, tokens, needle, sums, codes, h);
    }
}

/// A step from the source straight to the sink is in every cut: it is a path
/// on its own.
pub proof fn lemma_direct_step_is_in_every_cut(
    edges: Seq<Edge>,
    needle: Seq<u8>,
    cut: spec_fn(int) -> bool,
    i: int,
)
    requires
        separates(edges, cut, 0, needle.len() as int),
        0 <= i < edges.len(),
        edges[i].from == 0,
        edges[i].to == needle.len(),
    ensures
        cut(i),
{
    let none: Seq<int> = Seq::empty();
    let path = none.push(i);
    assert(path.drop_last() =~= none);
    assert(is_path(edges, none, 0, 0));
    assert(is_path(edges, path, 0, needle.len() as int));
    assert(meets(path, cut));
    let k = choose|k: int| 0 <= k < path.len() && cut(#[trigger] path[k]);
    assert(path[k] == i);
}

/// The greedy step out of an offset and the tokens that end the needle there
/// are disjoint, so a parse goes on in one way at most.
pub proof fn lemma_steps_are_disjoint(
    edges: Seq<Edge>,
    ids: Seq<Token>,
    tokens: Seq<Seq<u8>>,
    needle: Seq<u8>,
    sums: Seq<u32>,
    i: int,
    j: int,
    t: int,
)
    requires
        is_graph(edges, ids, tokens, needle, sums),
        conformant(tokens),
        0 <= i < edges.len(),
        0 <= j < edges.len(),
        edges[i].probe is Point,
        edges[j].probe is Range,
        edges[i].from == edges[j].from,
        0 <= t < tokens.len(),
        probes(edges[i], ids, t),
    ensures
        !probes(edges[j], ids, t),
{
    lemma_edge_spells(edges, ids, tokens, needle, sums, i, t);
    if probes(edges[j], ids, t) {
        lemma_edge_spells(edges, ids, tokens, needle, sums, j, t);
    }
}

/// Every step of codes along a whole path of the graph passes, where the step
/// can be probed for, and so does a token that contains the whole needle.
pub proof fn lemma_steps_of_layouts_pass(
    edges: Seq<Edge>,
    ids: Seq<Token>,
    tokens: Seq<Seq<u8>>,
    needle: Seq<u8>,
    path: Seq<int>,
    codes: Seq<Token>,
    at: int,
    k: int,
)
    requires
        is_path(edges, path, 0, needle.len() as int),
        follows(edges, ids, tokens, needle, path, codes, at),
        0 <= k < path.len(),
        probes(edges[path[k]], ids, codes[at + k] as int) || contains(
            tokens[codes[at + k] as int],
            needle,
        ),
    ensures
        passes(edges, ids, tokens, needle, codes, at + k),
{
    let h = at + k;
    if !contains(tokens[codes[h] as int], needle) {
        let i = path[k];
        lemma_path_take(edges, path, 0, needle.len() as int, k);
        let front = path.take(k);
        assert forall|q: int| 0 <= q < front.len() implies admits(
            edges[#[trigger] front[q]],
            ids,
            tokens,
            needle,
            codes[at + q] as int,
        ) by {
            assert(front[q] == path[q]);
        }
        lemma_path_back(edges, ids, tokens, needle, front, codes, at, edges[i].from as int);
        lemma_path_on(edges, ids, tokens, needle, path, codes, at, k);
        assert(probes(edges[i], ids, codes[h] as int));
    }
}

/// The path that a code which passes is a step of, where its token does not
/// contain the whole needle, and the code that the path begins with.
pub proof fn passing_layout(
    edges: Seq<Edge>,
    ids: Seq<Token>,
    tokens: Seq<Seq<u8>>,
    needle: Seq<u8>,
    codes: Seq<Token>,
    h: int,
) -> (r: (Seq<int>, int))
    requires
        passes(edges, ids, tokens, needle, codes, h),
        !contains(tokens[codes[h] as int], needle),
        0 <= h < codes.len(),
    ensures
        is_path(edges, r.0, 0, needle.len() as int),
        follows(edges, ids, tokens, needle, r.0, codes, r.1),
        r.1 <= h < r.1 + r.0.len(),
        probes(edges[r.0[h - r.1]], ids, codes[h] as int),
{
    let i = choose|i: int|
        0 <= i < edges.len() && probes(#[trigger] edges[i], ids, codes[h] as int) && leads_back(
            edges,
            ids,
            tokens,
            needle,
            codes,
            edges[i].from as int,
            h,
        ) && goes_on(edges, ids, tokens, needle, codes, edges[i].to as int, h + 1);
    let front = path_to(edges, ids, tokens, needle, codes, edges[i].from as int, h);
    lemma_path_push(edges, front, 0, edges[i].from as int, i);
    let at = h - front.len();
    lemma_follows_push(edges, ids, tokens, needle, front, codes, at, i);
    let path = path_on(
        edges,
        ids,
        tokens,
        needle,
        codes,
        front.push(i),
        edges[i].to as int,
        h + 1,
    );
    assert(path[h - at] == i) by {
        assert(path[front.len() as int] == front.push(i)[front.len() as int]);
    }
    (path, at)
}

proof fn path_to(
    edges: Seq<Edge>,
    ids: Seq<Token>,
    tokens: Seq<Seq<u8>>,
    needle: Seq<u8>,
    codes: Seq<Token>,
    o: int,
    j: int,
) -> (path: Seq<int>)
    requires
        leads_back(edges, ids, tokens, needle, codes, o, j),
        0 <= j <= codes.len(),
    ensures
        path.len() <= j,
        is_path(edges, path, 0, o),
        follows(edges, ids, tokens, needle, path, codes, j - path.len()),
    decreases j,
{
    if o == 0 {
        Seq::empty()
    } else {
        let i = choose|i: int|
            0 <= i < edges.len() && (#[trigger] edges[i]).to == o && admits(
                edges[i],
                ids,
                tokens,
                needle,
                codes[j - 1] as int,
            ) && leads_back(edges, ids, tokens, needle, codes, edges[i].from as int, j - 1);
        let front = path_to(edges, ids, tokens, needle, codes, edges[i].from as int, j - 1);
        lemma_path_push(edges, front, 0, edges[i].from as int, i);
        lemma_follows_push(
            edges,
            ids,
            tokens,
            needle,
            front,
            codes,
            j - 1 - front.len(),
            i,
        );
        front.push(i)
    }
}

proof fn path_on(
    edges: Seq<Edge>,
    ids: Seq<Token>,
    tokens: Seq<Seq<u8>>,
    needle: Seq<u8>,
    codes: Seq<Token>,
    path: Seq<int>,
    o: int,
    j: int,
) -> (whole: Seq<int>)
    requires
        goes_on(edges, ids, tokens, needle, codes, o, j),
        is_path(edges, path, 0, o),
        path.len() <= j <= codes.len(),
        follows(edges, ids, tokens, needle, path, codes, j - path.len()),
    ensures
        whole.len() >= path.len(),
        forall|k: int| 0 <= k < path.len() ==> whole[k] == #[trigger] path[k],
        is_path(edges, whole, 0, needle.len() as int),
        follows(edges, ids, tokens, needle, whole, codes, j - path.len()),
    decreases codes.len() - j,
{
    if o == needle.len() {
        path
    } else {
        let i = choose|i: int|
            0 <= i < edges.len() && (#[trigger] edges[i]).from == o && admits(
                edges[i],
                ids,
                tokens,
                needle,
                codes[j] as int,
            ) && goes_on(edges, ids, tokens, needle, codes, edges[i].to as int, j + 1);
        lemma_path_push(edges, path, 0, o, i);
        lemma_follows_push(edges, ids, tokens, needle, path, codes, j - path.len(), i);
        let more = path.push(i);
        let whole = path_on(
            edges,
            ids,
            tokens,
            needle,
            codes,
            more,
            edges[i].to as int,
            j + 1,
        );
        assert forall|k: int| 0 <= k < path.len() implies whole[k] == #[trigger] path[k] by {
            assert(whole[k] == more[k]);
        }
        whole
    }
}

/// Codes follow a path just when each in turn is what its edge probes for, or
/// ends with what the edge enters at where that was too much to probe for.
pub proof fn lemma_following_means(
    edges: Seq<Edge>,
    ids: Seq<Token>,
    tokens: Seq<Seq<u8>>,
    needle: Seq<u8>,
    path: Seq<int>,
    codes: Seq<Token>,
    at: int,
)
    ensures
        follows(edges, ids, tokens, needle, path, codes, at) <==> 0 <= at && at + path.len()
            <= codes.len() && forall|k: int|
            0 <= k < path.len() ==> {
                let e = edges[#[trigger] path[k]];
                let t = codes[at + k] as int;
                probes(e, ids, t) || (e.probe is TooBigSet && ends_with(
                    tokens[t],
                    needle.take(e.to as int),
                ))
            },
{
    if 0 <= at && at + path.len() <= codes.len() && forall|k: int|
        0 <= k < path.len() ==> {
            let e = edges[#[trigger] path[k]];
            let t = codes[at + k] as int;
            probes(e, ids, t) || (e.probe is TooBigSet && ends_with(
                tokens[t],
                needle.take(e.to as int),
            ))
        } {
        assert forall|k: int| 0 <= k < path.len() implies admits(
            edges[#[trigger] path[k]],
            ids,
            tokens,
            needle,
            codes[at + k] as int,
        ) by {}
    }
    if follows(edges, ids, tokens, needle, path, codes, at) {
        assert forall|k: int| 0 <= k < path.len() implies {
            let e = edges[#[trigger] path[k]];
            let t = codes[at + k] as int;
            probes(e, ids, t) || (e.probe is TooBigSet && ends_with(
                tokens[t],
                needle.take(e.to as int),
            ))
        } by {
            assert(admits(edges[path[k]], ids, tokens, needle, codes[at + k] as int));
        }
    }
}

} // verus!
