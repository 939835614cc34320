//! What the alignment graph is like: its size, the direction of its edges, the
//! probes on its paths, and what their weights count.

use crate::order::{conformant, lemma_sorted_unique};
use crate::query::stats::occurrences;
use crate::search::index::frequency::{counts_exactly, range_sum};
use crate::search::prefilter::graph::{
    can_end, ends_from, entering, enters_at, is_entry, is_step, lemma_edge, lemma_entering,
    lemma_has_entry, lemma_reached, lemma_state, list_sum, points_from, probes, reached, steps_to,
    AlignmentGraph, Edge, ProbeSet,
};
use crate::search::prefilter::mincut::{all_cuttable, is_path, meets, separates};
use crate::search::lookup::is_longest;
use crate::search::prefilter::layout::lemma_step_inside;
use crate::search::tokenize::lemma_some_token;
use crate::text::{ends_with, starts_with};
use crate::types::Token;
use crate::count::{lemma_count_next, lemma_count_none};
use vstd::prelude::*;
use vstd::set_lib::set_int_range;

verus! {

/// How many of the first `k` codes lie in a set.
pub open spec fn codes_in(set: spec_fn(int) -> bool, codes: Seq<Token>, k: nat) -> nat
    decreases k,
{
    if k == 0 {
        0
    } else {
        codes_in(set, codes, (k - 1) as nat) + (if set(codes[k - 1] as int) {
            1nat
        } else {
            0nat
        })
    }
}

/// The tokens that an edge probes for.
pub open spec fn probe_set(e: Edge, ids: Seq<Token>) -> spec_fn(int) -> bool {
    |t: int| probes(e, ids, t)
}

/// A set with one more token holds its occurrences more.
proof fn lemma_one_more(
    a: spec_fn(int) -> bool,
    b: spec_fn(int) -> bool,
    x: int,
    codes: Seq<Token>,
    k: nat,
)
    requires
        k <= codes.len(),
        !a(x),
        forall|t: int| #[trigger] b(t) <==> a(t) || t == x,
    ensures
        codes_in(b, codes, k) == codes_in(a, codes, k) + occurrences(codes, x, k),
    decreases k,
{
    if k > 0 {
        lemma_one_more(a, b, x, codes, (k - 1) as nat);
        let c = codes[k - 1] as int;
        assert(b(c) <==> a(c) || c == x);
    }
}

proof fn lemma_same_codes(a: spec_fn(int) -> bool, b: spec_fn(int) -> bool, codes: Seq<Token>, k: nat)
    requires
        forall|t: int| #[trigger] a(t) <==> b(t),
    ensures
        codes_in(a, codes, k) == codes_in(b, codes, k),
    decreases k,
{
    if k > 0 {
        lemma_same_codes(a, b, codes, (k - 1) as nat);
        assert(a(codes[k - 1] as int) <==> b(codes[k - 1] as int));
    }
}

proof fn lemma_no_codes(a: spec_fn(int) -> bool, codes: Seq<Token>, k: nat)
    requires
        forall|t: int| !#[trigger] a(t),
    ensures
        codes_in(a, codes, k) == 0,
    decreases k,
{
    if k > 0 {
        lemma_no_codes(a, codes, (k - 1) as nat);
        assert(!a(codes[k - 1] as int));
    }
}

/// The tokens of a list.
spec fn of_list(ids: Seq<Token>) -> spec_fn(int) -> bool {
    |t: int| exists|i: int| 0 <= i < ids.len() && #[trigger] ids[i] == t
}

/// The tokens from `a` up to, but not including, `b`.
spec fn of_span(a: int, b: int) -> spec_fn(int) -> bool {
    |t: int| a <= t < b
}

proof fn lemma_list_counts(sums: Seq<u32>, codes: Seq<Token>, ids: Seq<Token>)
    requires
        counts_exactly(sums, codes),
        forall|i: int| 0 <= i < ids.len() ==> #[trigger] ids[i] < sums.len() - 1,
        forall|i: int, j: int| 0 <= i < j < ids.len() ==> ids[i] < ids[j],
    ensures
        list_sum(sums, ids) == codes_in(of_list(ids), codes, codes.len()),
    decreases ids.len(),
{
    if ids.len() == 0 {
        lemma_no_codes(of_list(ids), codes, codes.len());
    } else {
        let rest = ids.drop_last();
        let x = ids.last() as int;
        assert(ids[ids.len() - 1] == x);
        lemma_list_counts(sums, codes, rest);
        assert forall|t: int| #[trigger] of_list(ids)(t) <==> of_list(rest)(t) || t == x by {
            if of_list(ids)(t) {
                let i = choose|i: int| 0 <= i < ids.len() && #[trigger] ids[i] == t;
                if i < rest.len() {
                    assert(rest[i] == t);
                }
            }
            if of_list(rest)(t) {
                let i = choose|i: int| 0 <= i < rest.len() && #[trigger] rest[i] == t;
                assert(ids[i] == t);
            }
        }
        assert(!of_list(rest)(x)) by {
            if of_list(rest)(x) {
                let i = choose|i: int| 0 <= i < rest.len() && #[trigger] rest[i] == x;
                assert(ids[i] < ids[ids.len() - 1]);
            }
        }
        lemma_one_more(of_list(rest), of_list(ids), x, codes, codes.len());
        assert(sums[x + 1] - sums[x] == occurrences(codes, x, codes.len()));
    }
}

proof fn lemma_span_counts(sums: Seq<u32>, codes: Seq<Token>, a: int, b: int)
    requires
        counts_exactly(sums, codes),
        0 <= a <= b < sums.len(),
    ensures
        sums[b] - sums[a] == codes_in(of_span(a, b), codes, codes.len()),
    decreases b - a,
{
    if a == b {
        lemma_no_codes(of_span(a, b), codes, codes.len());
    } else {
        lemma_span_counts(sums, codes, a, b - 1);
        assert forall|t: int| #[trigger] of_span(a, b)(t) <==> of_span(a, b - 1)(t) || t == b
            - 1 by {}
        lemma_one_more(of_span(a, b - 1), of_span(a, b), b - 1, codes, codes.len());
        assert(sums[(b - 1) + 1] - sums[b - 1] == occurrences(codes, b - 1, codes.len()));
    }
}

/// Every path into the sink ends with an edge that a cut may select.
pub proof fn lemma_cuttable_path(
    g: &AlignmentGraph,
    tokens: Seq<Seq<u8>>,
    needle: Seq<u8>,
    sums: Seq<u32>,
)
    requires
        g.of(tokens, needle, sums),
        needle.len() > 0,
    ensures
        separates(g.edges@, all_cuttable(g.edges@), 0, needle.len() as int),
{
    let edges = g.edges@;
    let n = needle.len() as int;
    assert forall|path: Seq<int>| #[trigger] is_path(edges, path, 0, n) implies meets(
        path,
        all_cuttable(edges),
    ) by {
        let e = path.last();
        lemma_edge(edges, g.first_set_ids@, tokens, needle, sums, e);
        assert(all_cuttable(edges)(path[path.len() - 1]));
    }
}

/// An edge leads forward, inside the needle, and where a cut may select it, its
/// cost is the number of codes that its probe catches.
pub proof fn lemma_edge_shape(
    g: &AlignmentGraph,
    tokens: Seq<Seq<u8>>,
    needle: Seq<u8>,
    sums: Seq<u32>,
    codes: Seq<Token>,
    i: int,
)
    requires
        g.of(tokens, needle, sums),
        conformant(tokens),
        tokens.len() < sums.len(),
        counts_exactly(sums, codes),
        0 <= i < g.edges@.len(),
    ensures
        g.edges@[i].from < g.edges@[i].to <= needle.len(),
        g.edges@[i].cuttable() ==> g.edges@[i].weight == codes_in(
            probe_set(g.edges@[i], g.first_set_ids@),
            codes,
            codes.len(),
        ),
{
    let e = g.edges@[i];
    let ids = g.first_set_ids@;
    let set = probe_set(e, ids);
    lemma_edge(g.edges@, ids, tokens, needle, sums, i);
    match e.probe {
        ProbeSet::TooBigSet => {},
        ProbeSet::Point(t) => {
            if e.from < needle.len() {
                lemma_some_token(tokens, needle.skip(e.from as int));
            }
            lemma_span_counts(sums, codes, t as int, t + 1);
            lemma_same_codes(of_span(t as int, t + 1), set, codes, codes.len());
        },
        ProbeSet::Range(r) => {
            assert(r.has(r.last as int));
            assert(range_sum(sums, r) == sums[r.last + 1] - sums[r.begin as int]);
            lemma_span_counts(sums, codes, r.begin as int, r.last + 1);
            lemma_same_codes(of_span(r.begin as int, r.last + 1), set, codes, codes.len());
        },
        ProbeSet::FirstSet { start, len } => {
            let n = tokens.len() as int;
            let all = entering(tokens, needle, e.to as int, n);
            lemma_entering(tokens, needle, e.to as int, n);
            assert forall|k: int| 0 <= k < all.len() implies #[trigger] all[k] < sums.len() - 1 by {
                assert(all.contains(all[k]));
            }
            lemma_list_counts(sums, codes, all);
            assert forall|t: int| #[trigger] of_list(all)(t) <==> set(t) by {
                if of_list(all)(t) {
                    let k = choose|k: int| 0 <= k < all.len() && #[trigger] all[k] == t;
                    assert(all.contains(all[k]));
                }
                if set(t) {
                    let k = choose|k: int| 0 <= k < all.len() && all[k] == t as Token;
                    assert(all[k] == t);
                }
            }
            lemma_same_codes(of_list(all), set, codes, codes.len());
        },
    }
}

/// The graph of a needle of `n` bytes has `n + 1` nodes and at most `2n + 16`
/// edges. Every edge leads forward, every path from the source to the sink has
/// an edge that a cut may select, and the cost of such an edge is the number of
/// codes that its probe catches.
pub proof fn lemma_graph_shape(
    g: &AlignmentGraph,
    tokens: Seq<Seq<u8>>,
    needle: Seq<u8>,
    sums: Seq<u32>,
    codes: Seq<Token>,
)
    requires
        g.of(tokens, needle, sums),
        conformant(tokens),
        needle.len() > 0,
        tokens.len() < sums.len(),
        counts_exactly(sums, codes),
    ensures
        g.nodes.total() == needle.len() + 1,
        g.edges@.len() <= 2 * needle.len() + 16,
        forall|i: int|
            0 <= i < g.edges@.len() ==> (#[trigger] g.edges@[i]).from < g.edges@[i].to
                <= needle.len(),
        separates(g.edges@, all_cuttable(g.edges@), 0, needle.len() as int),
        forall|i: int|
            0 <= i < g.edges@.len() && (#[trigger] g.edges@[i]).cuttable() ==> g.edges@[i].weight
                == codes_in(probe_set(g.edges@[i], g.first_set_ids@), codes, codes.len()),
{
    lemma_cuttable_path(g, tokens, needle, sums);
    assert forall|i: int| 0 <= i < g.edges@.len() implies (#[trigger] g.edges@[i]).from
        < g.edges@[i].to <= needle.len() && (g.edges@[i].cuttable() ==> g.edges@[i].weight
        == codes_in(probe_set(g.edges@[i], g.first_set_ids@), codes, codes.len())) by {
        lemma_edge_shape(g, tokens, needle, sums, codes, i);
    }
}

/// Codes in a set are counted one by one.
pub proof fn lemma_codes_in_counted(set: spec_fn(int) -> bool, codes: Seq<Token>, k: nat)
    ensures
        codes_in(set, codes, k) == set_int_range(0, k as int).filter(
            |i: int| set(codes[i] as int),
        ).len(),
    decreases k,
{
    let f = |i: int| set(codes[i] as int);
    if k == 0 {
        lemma_count_none(f);
    } else {
        lemma_codes_in_counted(set, codes, (k - 1) as nat);
        lemma_count_next(k - 1, f);
    }
}

/// What cutting an edge costs is the number of codes that its probe catches,
/// and an edge cannot be cut just when its first-token set has more than 16
/// tokens.
pub proof fn lemma_costs_count_caught_codes(
    g: &AlignmentGraph,
    tokens: Seq<Seq<u8>>,
    needle: Seq<u8>,
    sums: Seq<u32>,
    codes: Seq<Token>,
    i: int,
)
    requires
        g.of(tokens, needle, sums),
        conformant(tokens),
        tokens.len() < sums.len(),
        counts_exactly(sums, codes),
        0 <= i < g.edges@.len(),
    ensures
        g.edges@[i].cuttable() ==> g.edges@[i].weight == set_int_range(
            0,
            codes.len() as int,
        ).filter(|j: int| probes(g.edges@[i], g.first_set_ids@, codes[j] as int)).len(),
        !g.edges@[i].cuttable() <==> g.edges@[i].from == 0 && g.edges@[i].to < needle.len()
            && !(g.edges@[i].probe is Point) && set_int_range(0, tokens.len() as int).filter(
            |t: int| ends_with(tokens[t], needle.take(g.edges@[i].to as int)),
        ).len() > 16,
        g.edges@[i].probe is FirstSet ==> forall|t: int|
            0 <= t < tokens.len() ==> (#[trigger] probes(g.edges@[i], g.first_set_ids@, t)
                <==> ends_with(tokens[t], needle.take(g.edges@[i].to as int))),
        g.edges@[i].probe is Range ==> forall|t: int|
            0 <= t < tokens.len() ==> (#[trigger] probes(g.edges@[i], g.first_set_ids@, t)
                <==> starts_with(tokens[t], needle.skip(g.edges@[i].from as int))),
{
    let e = g.edges@[i];
    let ids = g.first_set_ids@;
    let set = probe_set(e, ids);
    let n = codes.len() as int;
    lemma_edge_shape(g, tokens, needle, sums, codes, i);
    lemma_codes_in_counted(set, codes, codes.len());
    assert(set_int_range(0, n).filter(|j: int| set(codes[j] as int)) =~= set_int_range(0, n).filter(
        |j: int| probes(g.edges@[i], g.first_set_ids@, codes[j] as int),
    ));
    lemma_edge(g.edges@, ids, tokens, needle, sums, i);
    lemma_entering_size(tokens, needle, e.to as int, tokens.len() as int);
    assert(set_int_range(0, tokens.len() as int).filter(
        |t: int| ends_with(tokens[t], needle.take(e.to as int)),
    ) =~= set_int_range(0, tokens.len() as int).filter(
        |t: int| ends_with(tokens[t], needle.take(g.edges@[i].to as int)),
    ));
    if e.probe is FirstSet {
        let all = entering(tokens, needle, e.to as int, tokens.len() as int);
        lemma_entering(tokens, needle, e.to as int, tokens.len() as int);
        assert forall|t: int| 0 <= t < tokens.len() implies (#[trigger] probes(e, ids, t)
            <==> ends_with(tokens[t], needle.take(e.to as int))) by {
            assert(all.contains(t as Token) <==> ends_with(tokens[t], needle.take(e.to as int)));
        }
    }
    if e.probe is Range {
        let r = e.probe->Range_0;
        assert forall|t: int| 0 <= t < tokens.len() implies (#[trigger] probes(e, ids, t)
            <==> starts_with(tokens[t], needle.skip(e.from as int))) by {
            assert(r.has(t) <==> 0 <= t < tokens.len() && starts_with(
                tokens[t],
                needle.skip(e.from as int),
            ));
        }
    }
}

proof fn lemma_entering_size(tokens: Seq<Seq<u8>>, needle: Seq<u8>, k: int, upto: int)
    requires
        0 <= upto <= tokens.len(),
    ensures
        entering(tokens, needle, k, upto).len() == set_int_range(0, upto).filter(
            |t: int| ends_with(tokens[t], needle.take(k)),
        ).len(),
    decreases upto,
{
    let f = |t: int| ends_with(tokens[t], needle.take(k));
    if upto == 0 {
        lemma_count_none(f);
    } else {
        lemma_entering_size(tokens, needle, k, upto - 1);
        lemma_count_next(upto - 1, f);
    }
}

/// A graph has an edge from the source for every part of the needle, of up to
/// 15 bytes and not all of it, that some token ends with.
pub proof fn entry_edge(
    g: &AlignmentGraph,
    tokens: Seq<Seq<u8>>,
    needle: Seq<u8>,
    sums: Seq<u32>,
    k: int,
    t: int,
) -> (i: int)
    requires
        g.of(tokens, needle, sums),
        conformant(tokens),
        1 <= k < needle.len(),
        k <= 15,
        0 <= t < tokens.len(),
        ends_with(tokens[t], needle.take(k)),
    ensures
        0 <= i < g.edges@.len(),
        g.edges@[i].from == 0,
        g.edges@[i].to == k,
        g.edges@[i].probe is FirstSet || g.edges@[i].probe is TooBigSet,
{
    let n = tokens.len() as int;
    let all = entering(tokens, needle, k, n);
    lemma_entering(tokens, needle, k, n);
    assert(all.contains(t as Token));
    lemma_has_entry(g.edges@, g.first_set_ids@, tokens, needle, sums, k);
    let i = choose|i: int| 0 <= i < g.edges@.len() && enters_at(#[trigger] g.edges@[i], k);
    lemma_edge(g.edges@, g.first_set_ids@, tokens, needle, sums, i);
    i
}

/// Where an edge enters an offset short of the needle's end, or at the source,
/// an edge leads on: to the sink where some token begins with what is left of
/// the needle, and with the longest token there otherwise.
pub proof fn onward_edge(
    g: &AlignmentGraph,
    tokens: Seq<Seq<u8>>,
    needle: Seq<u8>,
    sums: Seq<u32>,
    o: int,
    t: int,
) -> (i: int)
    requires
        g.of(tokens, needle, sums),
        conformant(tokens),
        0 <= o < needle.len(),
        o == 0 || exists|j: int| 0 <= j < g.edges@.len() && (#[trigger] g.edges@[j]).to == o,
        0 <= t < tokens.len(),
        starts_with(tokens[t], needle.skip(o)) || (is_longest(tokens, needle.skip(o), t) && o
            + tokens[t].len() < needle.len()),
    ensures
        0 <= i < g.edges@.len(),
        g.edges@[i].from == o,
        probes(g.edges@[i], g.first_set_ids@, t),
        starts_with(tokens[t], needle.skip(o)) ==> g.edges@[i].to == needle.len(),
        !starts_with(tokens[t], needle.skip(o)) ==> g.edges@[i].to == o + tokens[t].len(),
{
    let edges = g.edges@;
    let ids = g.first_set_ids@;
    assert(reached(tokens, needle, o)) by {
        if o > 0 {
            let j = choose|j: int| 0 <= j < edges.len() && (#[trigger] edges[j]).to == o;
            lemma_edge(edges, ids, tokens, needle, sums, j);
            match edges[j].probe {
                ProbeSet::Point(u) => {
                    assert(is_step(
                        tokens,
                        needle,
                        edges[j].from as int,
                        u,
                        o - edges[j].from as int,
                    ));
                    assert(steps_to(tokens, needle, edges[j].from as int, o));
                    lemma_step_inside(
                        tokens,
                        needle,
                        edges[j].from as int,
                        u,
                        o - edges[j].from as int,
                    );
                    lemma_reached(tokens, needle, edges[j].from as int, o);
                },
                ProbeSet::FirstSet { start, len } => {},
                _ => {},
            }
        }
    }
    lemma_state(edges, ids, tokens, needle, sums, o);
    let rest = needle.skip(o);
    if starts_with(tokens[t], rest) {
        assert(can_end(tokens, needle, o));
        let i = choose|i: int| 0 <= i < edges.len() && ends_from(#[trigger] edges[i], o);
        lemma_edge(edges, ids, tokens, needle, sums, i);
        assert(edges[i].probe->Range_0.has(t));
        i
    } else {
        let next = o + tokens[t].len();
        assert(is_step(tokens, needle, o, t as Token, next - o));
        assert(steps_to(tokens, needle, o, next));
        let i = choose|i: int| 0 <= i < edges.len() && points_from(#[trigger] edges[i], o);
        lemma_edge(edges, ids, tokens, needle, sums, i);
        let u = edges[i].probe->Point_0;
        lemma_some_token(tokens, rest);
        assert(tokens[u as int] =~= tokens[t]) by {
            assert(rest.take(tokens[u as int].len() as int) =~= tokens[u as int]);
            assert(rest.take(tokens[t].len() as int) =~= tokens[t]);
        }
        lemma_sorted_unique(tokens, u as int, t);
        i
    }
}

/// An edge that does not leave the source leaves where another edge ends: no
/// edge is out of reach.
pub proof fn incoming_edge(
    g: &AlignmentGraph,
    tokens: Seq<Seq<u8>>,
    needle: Seq<u8>,
    sums: Seq<u32>,
    i: int,
) -> (j: int)
    requires
        g.of(tokens, needle, sums),
        conformant(tokens),
        0 <= i < g.edges@.len(),
        g.edges@[i].from > 0,
    ensures
        0 <= j < g.edges@.len(),
        g.edges@[j].to == g.edges@[i].from,
{
    let edges = g.edges@;
    let ids = g.first_set_ids@;
    let o = edges[i].from as int;
    lemma_edge(edges, ids, tokens, needle, sums, i);
    assert(reached(tokens, needle, o));
    if is_entry(tokens, needle, o) {
        lemma_has_entry(edges, ids, tokens, needle, sums, o);
        choose|j: int| 0 <= j < edges.len() && enters_at(#[trigger] edges[j], o)
    } else {
        let q = choose|q: int|
            0 <= q < o && reached(tokens, needle, q) && #[trigger] steps_to(tokens, needle, q, o);
        let t = choose|t: Token| #[trigger] is_step(tokens, needle, q, t, o - q);
        assert(o < needle.len()) by {
            if edges[i].probe is Point {
                lemma_step_at_most(tokens, needle, o, edges[i].probe->Point_0, edges[i].to - o);
            }
        }
        lemma_step_inside(tokens, needle, q, t, o - q);
        lemma_state(edges, ids, tokens, needle, sums, q);
        let j = choose|j: int| 0 <= j < edges.len() && points_from(#[trigger] edges[j], q);
        lemma_edge(edges, ids, tokens, needle, sums, j);
        let u = edges[j].probe->Point_0;
        let rest = needle.skip(q);
        lemma_some_token(tokens, rest);
        assert(tokens[u as int] =~= tokens[t as int]) by {
            assert(rest.take(tokens[u as int].len() as int) =~= tokens[u as int]);
            assert(rest.take(tokens[t as int].len() as int) =~= tokens[t as int]);
        }
        j
    }
}

/// A step does not go back.
proof fn lemma_step_at_most(tokens: Seq<Seq<u8>>, needle: Seq<u8>, o: int, t: Token, len: int)
    requires
        is_step(tokens, needle, o, t, len),
    ensures
        len >= 0,
{
}

} // verus!
