//! Pattern to probe cover: build the alignment graph, cut it, scan for the cut.
//!
//! A minimum cut chooses across every pattern alignment at once. Frequencies
//! weight the cut but never alter its selected membership: stored weights may
//! contain false zeroes, so pruning by frequency would be unsound.

use crate::dictionary::{decode, DictView};
use crate::order::{complete, conformant, has_byte};
use crate::search::index::frequency::TokenFrequencyIndexView;
use crate::search::prefilter::cover::{are_runs, lemma_injection, ProbeCover};
use crate::search::prefilter::graph::{
    build_alignment_graph, is_graph, lemma_edge, lemma_probes_fit, probes, Edge,
};
use crate::search::prefilter::layout::{in_cover, lemma_cover_and_walk_are_exact, passes};
use crate::search::prefilter::mincut::{
    cost_of, is_min_side, leaves, leaving, lemma_cheapest_side_is_cheapest_cut,
    lemma_side_separates, min_cut, picked, separates,
};
use crate::search::prefilter::shape::lemma_cuttable_path;
use crate::search::prefilter::walk::{Walk, WalkModel};
use crate::search::tokenize::is_greedy;
use crate::text::contains;
use crate::types::{Token, MAX_TOKENS};
use vstd::prelude::*;

verus! {

/// The longest pattern: one node per needle offset and the sink, all of them
/// within the walk's 16-bit ids.
pub const MAX_PATTERN_LEN: usize = 65535;

/// The cover of a pattern, and the walk that verifies its hits.
pub struct Plan {
    pub cover: ProbeCover,
    pub walk: Walk,
}

/// The tokens that the minimum cut of a graph covers.
pub open spec fn is_min_cover(cover: &ProbeCover, m: WalkModel) -> bool {
    exists|side: Seq<bool>|
        {
            &&& side.len() == m.needle.len() + 1
            &&& #[trigger] is_min_side(m.edges, side, 0, m.needle.len() as int)
            &&& forall|t: int|
                0 <= t < m.tokens.len() ==> (#[trigger] cover.has(t) <==> in_cover(
                    m.edges,
                    m.ids,
                    m.tokens,
                    m.needle,
                    leaving(m.edges, side),
                    t,
                ))
        }
}

/// The cover and the walk are those of `pattern` over `tokens`, with the cut
/// weighted by `sums`.
pub open spec fn is_plan(
    cover: &ProbeCover,
    walk: &Walk,
    tokens: Seq<Seq<u8>>,
    pattern: Seq<u8>,
    sums: Seq<u32>,
) -> bool {
    let m = walk.model();
    &&& walk.wf()
    &&& m.tokens == tokens
    &&& m.needle == pattern
    &&& m.sums == sums
    &&& is_graph(m.edges, m.ids, tokens, pattern, sums)
    &&& cover.wf()
    &&& cover.proper()
    &&& cover.members().len() == tokens.len()
    &&& are_runs(cover.point_list(), cover.range_list(), cover.members())
    &&& is_min_cover(cover, m)
}

/// A dictionary with a token for every byte has as many tokens as there are
/// bytes.
proof fn lemma_token_per_byte(tokens: Seq<Seq<u8>>)
    requires
        complete(tokens),
    ensures
        tokens.len() >= 256,
{
    let f = Seq::new(
        256,
        |b: int| choose|i: int| 0 <= i < tokens.len() && #[trigger] tokens[i] =~= seq![b as u8],
    );
    assert forall|b: int| 0 <= b < f.len() implies 0 <= #[trigger] f[b] < tokens.len() && tokens[f[b]]
        =~= seq![b as u8] by {
        assert(has_byte(tokens, b as u8));
    }
    assert forall|a: int, b: int| 0 <= a < b < f.len() implies f[a] != f[b] by {
        assert(tokens[f[a]][0] == a as u8);
        assert(tokens[f[b]][0] == b as u8);
    }
    lemma_injection(f, tokens.len() as int);
}

/// Compiles a sound probe cover for `pattern` over `dict`, cheapest by term
/// frequency according to the advisory weights.
#[verifier::spinoff_prover]
#[verifier::rlimit(40)]
pub fn plan(dict: DictView<'_>, pattern: &[u8], frequencies: TokenFrequencyIndexView<'_>) -> (r: Plan)
    requires
        dict.wf(),
        conformant(dict.tokens()),
        0 < pattern@.len() <= MAX_PATTERN_LEN,
        frequencies.wf(),
        dict.tokens().len() < frequencies.sums().len(),
    ensures
        is_plan(&r.cover, &r.walk, dict.tokens(), pattern@, frequencies.sums()),
{
    let ghost toks = dict.tokens();
    let ghost p = pattern@;
    let ghost sums = frequencies.sums();
    let graph = build_alignment_graph(dict, pattern, frequencies);
    let ghost edges = graph.edges@;
    let ghost ids = graph.first_set_ids@;
    let ghost n = p.len() as int;
    proof {
        lemma_token_per_byte(toks);
        lemma_cuttable_path(&graph, toks, p, sums);
        assert forall|i: int| 0 <= i < edges.len() implies (#[trigger] edges[i]).from <= n
            && edges[i].to <= n by {
            lemma_edge(edges, ids, toks, p, sums, i);
        }
    }
    let cut = min_cut(graph.edges.as_slice(), graph.nodes);
    let ghost side = choose|side: Seq<bool>|
        {
            &&& side.len() == n + 1
            &&& #[trigger] is_min_side(edges, side, 0, n)
            &&& forall|i: int| #[trigger] picked(cut@)(i) <==> leaves(edges, side, i)
        };
    proof {
        assert forall|k: int| 0 <= k < cut@.len() implies graph.probe_fits(
            #[trigger] cut@[k] as int,
        ) by {
            assert(picked(cut@)(cut@[k] as int));
            lemma_probes_fit(&graph, toks, p, sums, cut@[k] as int);
        }
    }
    let mut members = graph.membership(cut.as_slice());
    let ghost chosen = members@;
    // The tokens that contain the whole pattern are mandatory.
    let mut k: usize = 0;
    let ghost cs = graph.contained@;
    while k < graph.contained.len()
        invariant
            cs == graph.contained@,
            k <= cs.len(),
            graph.of(toks, p, sums),
            toks.len() <= graph.width(),
            members@.len() == graph.width(),
            chosen.len() == members@.len(),
            forall|t: int|
                0 <= t < members@.len() ==> (#[trigger] members@[t] <==> chosen[t] || exists|j: int|
                    0 <= j < k && #[trigger] cs[j] == t),
        decreases cs.len() - k,
    {
        let id: Token = graph.contained[k];
        let ghost before = members@;
        assert(cs.contains(id));
        members.set(id as usize, true);
        proof {
            assert forall|t: int| 0 <= t < members@.len() implies (#[trigger] members@[t]
                <==> chosen[t] || exists|j: int| 0 <= j < k + 1 && #[trigger] cs[j] == t) by {
                assert(before[t] <==> chosen[t] || exists|j: int|
                    0 <= j < k && #[trigger] cs[j] == t);
            }
        }
        k = k + 1;
    }
    let ghost table = members@;
    let cover = ProbeCover::from_membership(members);
    let walk = Walk::from_graph(&graph, pattern, Ghost(toks), Ghost(sums));
    proof {
        assert(cover.members().len() == toks.len());
        assert forall|t: int| 0 <= t < toks.len() implies (#[trigger] cover.has(t) <==> in_cover(
            edges,
            ids,
            toks,
            p,
            leaving(edges, side),
            t,
        )) by {
            assert(table[t] <==> chosen[t] || exists|j: int|
                0 <= j < cs.len() && #[trigger] cs[j] == t);
            lemma_held(cs, toks, p, t);
            lemma_chosen(edges, ids, cut@, side, t);
        }
        let m = walk.model();
        assert(m.edges == edges && m.ids == ids && m.tokens == toks && m.needle == p);
        lemma_is_min_cover(&cover, m, side);
    }
    Plan { cover, walk }
}

proof fn lemma_is_min_cover(cover: &ProbeCover, m: WalkModel, side: Seq<bool>)
    requires
        side.len() == m.needle.len() + 1,
        is_min_side(m.edges, side, 0, m.needle.len() as int),
        forall|t: int|
            0 <= t < m.tokens.len() ==> (#[trigger] cover.has(t) <==> in_cover(
                m.edges,
                m.ids,
                m.tokens,
                m.needle,
                leaving(m.edges, side),
                t,
            )),
    ensures
        is_min_cover(cover, m),
{
}

proof fn lemma_held(cs: Seq<Token>, tokens: Seq<Seq<u8>>, needle: Seq<u8>, t: int)
    requires
        crate::search::prefilter::graph::are_containing(cs, tokens, needle),
        0 <= t < tokens.len() <= MAX_TOKENS,
    ensures
        (exists|j: int| 0 <= j < cs.len() && #[trigger] cs[j] == t) <==> contains(
            tokens[t],
            needle,
        ),
{
    assert(cs.contains(t as Token) <==> contains(tokens[t], needle));
    if cs.contains(t as Token) {
        let j = choose|j: int| 0 <= j < cs.len() && cs[j] == t as Token;
        assert(cs[j] == t);
    }
    if exists|j: int| 0 <= j < cs.len() && #[trigger] cs[j] == t {
        let j = choose|j: int| 0 <= j < cs.len() && #[trigger] cs[j] == t;
        assert(cs.contains(cs[j]));
    }
}

proof fn lemma_chosen(edges: Seq<Edge>, ids: Seq<Token>, cut: Seq<u32>, side: Seq<bool>, t: int)
    requires
        forall|i: int| #[trigger] picked(cut)(i) <==> leaves(edges, side, i),
    ensures
        (exists|k: int|
            0 <= k < cut.len() && probes(edges[#[trigger] cut[k] as int], ids, t)) <==> (exists|i: int|
            0 <= i < edges.len() && #[trigger] leaving(edges, side)(i) && probes(edges[i], ids, t)),
{
    if exists|k: int| 0 <= k < cut.len() && probes(edges[#[trigger] cut[k] as int], ids, t) {
        let k = choose|k: int|
            0 <= k < cut.len() && probes(edges[#[trigger] cut[k] as int], ids, t);
        assert(picked(cut)(cut[k] as int));
        assert(leaving(edges, side)(cut[k] as int));
    }
    if exists|i: int|
        0 <= i < edges.len() && #[trigger] leaving(edges, side)(i) && probes(edges[i], ids, t) {
        let i = choose|i: int|
            0 <= i < edges.len() && #[trigger] leaving(edges, side)(i) && probes(edges[i], ids, t);
        assert(leaves(edges, side, i));
        assert(picked(cut)(i));
        let k = choose|k: int| 0 <= k < cut.len() && #[trigger] cut[k] == i;
        assert(cut[k] as int == i);
    }
}

/// A plan is exact: a greedily tokenized row contains the pattern just when it
/// holds a covered code that passes the walk.
pub proof fn lemma_plan_is_exact(
    cover: &ProbeCover,
    walk: &Walk,
    tokens: Seq<Seq<u8>>,
    pattern: Seq<u8>,
    sums: Seq<u32>,
    codes: Seq<Token>,
)
    requires
        is_plan(cover, walk, tokens, pattern, sums),
        conformant(tokens),
        is_greedy(tokens, codes),
        pattern.len() > 0,
    ensures
        contains(decode(tokens, codes), pattern) <==> exists|h: int|
            0 <= h < codes.len() && cover.has(#[trigger] codes[h] as int) && passes(
                walk.model().edges,
                walk.model().ids,
                tokens,
                pattern,
                codes,
                h,
            ),
{
    let m = walk.model();
    let n = pattern.len() as int;
    let side = choose|side: Seq<bool>|
        {
            &&& side.len() == m.needle.len() + 1
            &&& #[trigger] is_min_side(m.edges, side, 0, m.needle.len() as int)
            &&& forall|t: int|
                0 <= t < m.tokens.len() ==> (#[trigger] cover.has(t) <==> in_cover(
                    m.edges,
                    m.ids,
                    m.tokens,
                    m.needle,
                    leaving(m.edges, side),
                    t,
                ))
        };
    lemma_side_separates(m.edges, side, 0, n);
    let cut = leaving(m.edges, side);
    lemma_cover_and_walk_are_exact(m.edges, m.ids, tokens, pattern, sums, cut, codes);
    crate::search::tokenize::lemma_first(tokens, codes);
    assert forall|h: int| 0 <= h < codes.len() implies (cover.has(#[trigger] codes[h] as int)
        <==> in_cover(m.edges, m.ids, tokens, pattern, cut, codes[h] as int)) by {
        assert(codes[h] < tokens.len());
    }
}

/// A plan is sound: every greedily tokenized row that contains the pattern
/// holds a covered code.
pub proof fn lemma_plan_is_sound(
    cover: &ProbeCover,
    walk: &Walk,
    tokens: Seq<Seq<u8>>,
    pattern: Seq<u8>,
    sums: Seq<u32>,
    codes: Seq<Token>,
)
    requires
        is_plan(cover, walk, tokens, pattern, sums),
        conformant(tokens),
        is_greedy(tokens, codes),
        pattern.len() > 0,
        contains(decode(tokens, codes), pattern),
    ensures
        exists|h: int| 0 <= h < codes.len() && cover.has(#[trigger] codes[h] as int),
{
    lemma_plan_is_exact(cover, walk, tokens, pattern, sums, codes);
}

/// The edges that a plan cuts: they separate the source from the sink, cost no
/// more than any others that a cut may select and that do, and with the tokens
/// that contain the whole pattern they are what the cover holds, and no id past
/// the dictionary.
pub proof fn planned_cut(
    cover: &ProbeCover,
    walk: &Walk,
    tokens: Seq<Seq<u8>>,
    pattern: Seq<u8>,
    sums: Seq<u32>,
) -> (cut: spec_fn(int) -> bool)
    requires
        is_plan(cover, walk, tokens, pattern, sums),
        pattern.len() > 0,
    ensures
        ({
            let edges = walk.model().edges;
            let ids = walk.model().ids;
            let n = pattern.len() as int;
            &&& is_graph(edges, ids, tokens, pattern, sums)
            &&& separates(edges, cut, 0, n)
            &&& forall|i: int|
                0 <= i < edges.len() && #[trigger] cut(i) ==> edges[i].cuttable()
            &&& forall|other: spec_fn(int) -> bool| #[trigger]
                separates(edges, other, 0, n) && (forall|i: int|
                    0 <= i < edges.len() && #[trigger] other(i) ==> edges[i].cuttable()) ==> cost_of(
                    edges,
                    cut,
                    edges.len() as int,
                ) <= cost_of(edges, other, edges.len() as int)
            &&& forall|t: int|
                0 <= t < tokens.len() ==> (#[trigger] cover.has(t) <==> contains(
                    tokens[t],
                    pattern,
                ) || exists|i: int|
                    0 <= i < edges.len() && #[trigger] cut(i) && probes(edges[i], ids, t))
            &&& forall|t: int| t >= tokens.len() ==> !#[trigger] cover.has(t)
        }),
{
    let m = walk.model();
    let n = pattern.len() as int;
    let side = choose|side: Seq<bool>|
        {
            &&& side.len() == m.needle.len() + 1
            &&& #[trigger] is_min_side(m.edges, side, 0, m.needle.len() as int)
            &&& forall|t: int|
                0 <= t < m.tokens.len() ==> (#[trigger] cover.has(t) <==> in_cover(
                    m.edges,
                    m.ids,
                    m.tokens,
                    m.needle,
                    leaving(m.edges, side),
                    t,
                ))
        };
    let cut = leaving(m.edges, side);
    lemma_side_separates(m.edges, side, 0, n);
    assert forall|i: int| 0 <= i < m.edges.len() implies (#[trigger] m.edges[i]).from <= n
        && m.edges[i].to <= n by {
        lemma_edge(m.edges, m.ids, tokens, pattern, sums, i);
    }
    assert forall|i: int| 0 <= i < m.edges.len() && #[trigger] cut(i) implies m.edges[i].cuttable() by {
        assert(leaves(m.edges, side, i));
    }
    assert forall|other: spec_fn(int) -> bool| #[trigger]
        separates(m.edges, other, 0, n) && (forall|i: int|
            0 <= i < m.edges.len() && #[trigger] other(i) ==> m.edges[i].cuttable()) implies cost_of(
        m.edges,
        cut,
        m.edges.len() as int,
    ) <= cost_of(m.edges, other, m.edges.len() as int) by {
        lemma_cheapest_side_is_cheapest_cut(m.edges, side, n, other);
    }
    assert forall|t: int| 0 <= t < tokens.len() implies (#[trigger] cover.has(t) <==> contains(
        tokens[t],
        pattern,
    ) || exists|i: int|
        0 <= i < m.edges.len() && #[trigger] cut(i) && probes(m.edges[i], m.ids, t)) by {
        assert(cover.has(t) <==> in_cover(m.edges, m.ids, tokens, pattern, cut, t));
    }
    cut
}

/// Patterns have up to 65535 bytes.
pub proof fn lemma_patterns_fit_node_ids()
    ensures
        MAX_PATTERN_LEN == 65535,
{
}

} // verus!
