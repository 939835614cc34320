//! Exact verification of a prefilter hit in the compressed domain.
//!
//! A hit is a covered token at a code index. The alignment graph lists the
//! parse steps which that token can be, and each step fixes the node on either
//! side of it. The forward walk takes the greedy step out of each node until it
//! reaches a terminal range; the backward walk takes the step into each node
//! until it reaches the source, or an occurrence that starts inside the token
//! entering that node. An occurrence exists when some step of the hit token
//! passes both walks. No byte is decoded.

use crate::dictionary::{codes_ok, DictView};
use crate::order::{conformant, has_prefix};
use crate::search::prefilter::graph::{
    are_containing, ends_from, entering, is_graph, lemma_distinct, lemma_edge, lemma_entering,
    points_from, probes, same_step, AlignmentGraph, Edge, ProbeSet, ESCAPE,
};
use crate::search::prefilter::layout::{admits, goes_on, leads_back, lemma_edge_spells, passes};
use crate::text::{contains, ends_with};
use crate::types::{Token, TokenRange};
use vstd::prelude::*;

verus! {

const SOURCE: u32 = 0;

/// The start of the needle that a node stands for.
struct NeedlePrefix {
    bytes: Vec<u8>,
}

impl NeedlePrefix {
    fn new(prefix: &[u8]) -> (r: NeedlePrefix)
        ensures
            r.bytes@ == prefix@,
    {
        NeedlePrefix { bytes: vstd::slice::slice_to_vec(prefix) }
    }

    /// Whether a token ends with it.
    fn is_tail_of(&self, dict: DictView<'_>, token: Token) -> (r: bool)
        requires
            dict.wf(),
            token < dict.tokens().len(),
        ensures
            r == ends_with(dict.tokens()[token as int], self.bytes@),
    {
        let bytes = dict.token(token);
        let len: usize = self.bytes.len();
        if bytes.len() < len {
            return false;
        }
        let tail = &bytes[bytes.len() - len..bytes.len()];
        proof {
            let tok = dict.tokens()[token as int];
            assert(tail@ =~= tok.skip(tok.len() - len));
            assert(tail@.take(len as int) =~= tail@);
        }
        has_prefix(tail, self.bytes.as_slice())
    }
}

/// A node of the graph: the needle offset that a parse has reached.
struct Node {
    /// The one greedy step out: its token and the node it lands on.
    greedy_step: Option<(Token, u32)>,
    /// The tokens that finish the needle from here.
    terminal_range: Option<TokenRange>,
    /// The needle prefix that this node stands for, set only where the tokens
    /// that enter here were not enumerated.
    entry: Option<NeedlePrefix>,
}

/// An edge of the graph as the walk reads it: the node that the parse is at
/// before the token and the node it is at after.
#[derive(Clone, Copy)]
struct Step {
    from: u16,
    to: u16,
}

/// The list holds a step from `from` to `to`.
spec fn has_step(steps: Seq<Step>, from: int, to: int) -> bool {
    exists|k: int| 0 <= k < steps.len() && (#[trigger] steps[k]).from == from && steps[k].to == to
}

/// The steps that each token lies on.
struct StepsByToken {
    rows: Vec<Vec<Step>>,
}

impl StepsByToken {
    spec fn row(&self, t: int) -> Seq<Step> {
        self.rows@[t]@
    }

    fn new(count: usize) -> (r: StepsByToken)
        ensures
            r.rows@.len() == count,
            forall|t: int| 0 <= t < count ==> (#[trigger] r.row(t)).len() == 0,
    {
        let mut rows: Vec<Vec<Step>> = Vec::new();
        let mut t: usize = 0;
        while t < count
            invariant
                t <= count,
                rows@.len() == t,
                forall|u: int| 0 <= u < t ==> (#[trigger] rows@[u])@.len() == 0,
            decreases count - t,
        {
            rows.push(Vec::new());
            t = t + 1;
        }
        StepsByToken { rows }
    }

    /// Adds a step to a token.
    fn add(&mut self, token: Token, from: u32, to: u32)
        requires
            token < old(self).rows@.len(),
            from <= 65535,
            to <= 65535,
        ensures
            final(self).rows@.len() == old(self).rows@.len(),
            forall|t: int, f: int, o: int|
                0 <= t < old(self).rows@.len() ==> (#[trigger] has_step(
                    final(self).row(t),
                    f,
                    o,
                ) <==> has_step(old(self).row(t), f, o) || (t == token && f == from && o == to)),
    {
        let ghost before = self.rows@;
        let mut row: Vec<Step> = Vec::new();
        std::mem::swap(&mut row, &mut self.rows[token as usize]);
        let ghost was = row@;
        row.push(Step { from: from as u16, to: to as u16 });
        let ghost is = row@;
        std::mem::swap(&mut row, &mut self.rows[token as usize]);
        proof {
            assert(is == was.push(Step { from: from as u16, to: to as u16 }));
            assert(was == before[token as int]@);
            assert(self.rows@[token as int]@ == is);
            assert forall|t: int, f: int, o: int|
                0 <= t < before.len() implies (#[trigger] has_step(self.row(t), f, o) <==> has_step(
                before[t]@,
                f,
                o,
            ) || (t == token && f == from && o == to)) by {
                if t == token {
                    if has_step(was, f, o) {
                        let k = choose|k: int|
                            0 <= k < was.len() && (#[trigger] was[k]).from == f && was[k].to == o;
                        assert(is[k].from == f && is[k].to == o);
                    }
                    if f == from && o == to {
                        assert(is[was.len() as int].from == f && is[was.len() as int].to == o);
                    }
                    if has_step(is, f, o) {
                        let k = choose|k: int|
                            0 <= k < is.len() && (#[trigger] is[k]).from == f && is[k].to == o;
                        if k < was.len() {
                            assert(was[k].from == f && was[k].to == o);
                        }
                    }
                } else {
                    assert(self.rows@[t] == before[t]);
                }
            }
        }
    }
}

/// What a node says of the first `upto` edges.
spec fn node_ok(node: Node, edges: Seq<Edge>, needle: Seq<u8>, o: int, upto: int) -> bool {
    &&& match node.greedy_step {
        Some((t, to)) => exists|i: int|
            0 <= i < upto && points_from(#[trigger] edges[i], o) && edges[i].probe
                == ProbeSet::Point(t) && edges[i].to == to,
        None => forall|i: int| 0 <= i < upto ==> !points_from(#[trigger] edges[i], o),
    }
    &&& match node.terminal_range {
        Some(r) => exists|i: int|
            0 <= i < upto && ends_from(#[trigger] edges[i], o) && edges[i].probe == ProbeSet::Range(
                r,
            ),
        None => forall|i: int| 0 <= i < upto ==> !ends_from(#[trigger] edges[i], o),
    }
    &&& match node.entry {
        Some(p) => p.bytes@ == needle.take(o) && exists|i: int|
            0 <= i < upto && wide_entry(#[trigger] edges[i], o),
        None => forall|i: int| 0 <= i < upto ==> !wide_entry(#[trigger] edges[i], o),
    }
}

/// The edge enters at `o`, with a set that was not enumerated.
spec fn wide_entry(e: Edge, o: int) -> bool {
    e.probe is TooBigSet && e.to == o
}

/// One of the first `upto` edges leads from `from` to `to` and probes for `t`.
spec fn has_probe(
    edges: Seq<Edge>,
    ids: Seq<Token>,
    upto: int,
    t: int,
    from: int,
    to: int,
) -> bool {
    exists|i: int|
        0 <= i < upto && (#[trigger] edges[i]).from == from && edges[i].to == to && probes(
            edges[i],
            ids,
            t,
        )
}

/// The alignment graph flattened for walking from a hit.
pub struct Walk {
    nodes: Vec<Node>,
    steps: StepsByToken,
    edges: Ghost<Seq<Edge>>,
    ids: Ghost<Seq<Token>>,
    tokens: Ghost<Seq<Seq<u8>>>,
    needle: Ghost<Seq<u8>>,
    sums: Ghost<Seq<u32>>,
}

/// The parts of the graph that a walk stands for.
pub struct WalkModel {
    pub edges: Seq<Edge>,
    pub ids: Seq<Token>,
    pub tokens: Seq<Seq<u8>>,
    pub needle: Seq<u8>,
    pub sums: Seq<u32>,
}

impl Walk {
    /// What the walk stands for.
    pub closed spec fn model(&self) -> WalkModel {
        WalkModel {
            edges: self.edges@,
            ids: self.ids@,
            tokens: self.tokens@,
            needle: self.needle@,
            sums: self.sums@,
        }
    }

    /// The walk is that of its model.
    pub closed spec fn wf(&self) -> bool {
        let m = self.model();
        let n = m.needle.len() as int;
        &&& is_graph(m.edges, m.ids, m.tokens, m.needle, m.sums)
        &&& conformant(m.tokens)
        &&& 0 < n <= 65535
        &&& self.nodes@.len() == n + 1
        &&& self.steps.rows@.len() >= m.tokens.len()
        &&& forall|o: int|
            0 <= o <= n ==> node_ok(
                #[trigger] self.nodes@[o],
                m.edges,
                m.needle,
                o,
                m.edges.len() as int,
            )
        &&& forall|t: int, from: int, to: int|
            0 <= t < m.tokens.len() ==> (#[trigger] has_step(self.steps.row(t), from, to)
                <==> has_probe(m.edges, m.ids, m.edges.len() as int, t, from, to) || (from == 0
                && to == n && contains(m.tokens[t], m.needle)))
    }

    /// Flattens `graph`.
    #[verifier::spinoff_prover]
    #[verifier::rlimit(60)]
    pub fn from_graph(
        graph: &AlignmentGraph,
        needle: &[u8],
        Ghost(tokens): Ghost<Seq<Seq<u8>>>,
        Ghost(sums): Ghost<Seq<u32>>,
    ) -> (r: Walk)
        requires
            graph.of(tokens, needle@, sums),
            conformant(tokens),
            0 < needle@.len() <= 65535,
        ensures
            r.wf(),
            r.model() == (WalkModel {
                edges: graph.edges@,
                ids: graph.first_set_ids@,
                tokens,
                needle: needle@,
                sums,
            }),
    {
        let ghost edges = graph.edges@;
        let ghost ids = graph.first_set_ids@;
        let ghost p = needle@;
        let n: usize = needle.len();
        let count: usize = graph.nodes.count();
        let mut nodes: Vec<Node> = Vec::new();
        while nodes.len() < count
            invariant
                nodes@.len() <= count,
                count == n + 1,
                forall|o: int| 0 <= o < nodes@.len() ==> node_ok(#[trigger] nodes@[o], edges, p, o, 0),
            decreases count - nodes@.len(),
        {
            nodes.push(Node { greedy_step: None, terminal_range: None, entry: None });
        }
        let width: usize = if graph.num_tokens > 256 {
            graph.num_tokens
        } else {
            256
        };
        let mut steps = StepsByToken::new(width);
        let m: usize = graph.edges.len();
        let mut i: usize = 0;
        proof {
            assert forall|t: int, from: int, to: int| 0 <= t < width implies (#[trigger] has_step(
                steps.row(t),
                from,
                to,
            ) <==> has_probe(edges, ids, 0, t, from, to)) by {
                assert(steps.row(t).len() == 0);
            }
        }
        while i < m
            invariant
                graph.of(tokens, p, sums),
                edges == graph.edges@,
                ids == graph.first_set_ids@,
                p == needle@,
                n == p.len(),
                0 < n <= 65535,
                m == edges.len(),
                i <= m,
                nodes@.len() == n + 1,
                width >= 256,
                width >= tokens.len(),
                conformant(tokens),
                steps.rows@.len() == width,
                forall|o: int|
                    0 <= o <= n ==> node_ok(#[trigger] nodes@[o], edges, p, o, i as int),
                forall|t: int, from: int, to: int|
                    0 <= t < width ==> (#[trigger] has_step(steps.row(t), from, to) <==> has_probe(
                        edges,
                        ids,
                        i as int,
                        t,
                        from,
                        to,
                    )),
            decreases m - i,
        {
            let edge: Edge = graph.edges[i];
            let from: u32 = edge.from;
            let to: u32 = edge.to;
            let ghost nodes0 = nodes@;
            let ghost steps0 = steps;
            proof {
                lemma_edge(edges, ids, tokens, p, sums, i as int);
            }
            match edge.probe {
                ProbeSet::Point(token) => {
                    proof {
                        lemma_point_in(tokens, p, edge, token);
                    }
                    nodes[from as usize].greedy_step = Some((token, to));
                    steps.add(token, from, to);
                    proof {
                        assert(points_from(edges[i as int], from as int));
                        assert forall|t: int, f: int, o: int| 0 <= t < width implies (
                        #[trigger] has_step(steps.row(t), f, o) <==> has_step(steps0.row(t), f, o)
                            || (f == from && o == to && probes(edge, ids, t))) by {}
                    }
                },
                ProbeSet::Range(range) => {
                    nodes[from as usize].terminal_range = Some(range);
                    proof {
                        assert(ends_from(edges[i as int], from as int));
                        assert(range.has(range.last as int));
                    }
                    let mut id: usize = range.begin as usize;
                    while id <= range.last as usize
                        invariant
                            range.begin <= id <= range.last + 1,
                            range.last < width,
                            steps.rows@.len() == width,
                            steps0.rows@.len() == width,
                            from <= 65535,
                            to <= 65535,
                            forall|t: int, f: int, o: int|
                                0 <= t < width ==> (#[trigger] has_step(steps.row(t), f, o)
                                    <==> has_step(steps0.row(t), f, o) || (f == from && o == to
                                    && range.begin <= t < id)),
                        decreases range.last + 1 - id,
                    {
                        steps.add(id as Token, from, to);
                        id = id + 1;
                    }
                    proof {
                        assert forall|t: int, f: int, o: int| 0 <= t < width implies (
                        #[trigger] has_step(steps.row(t), f, o) <==> has_step(steps0.row(t), f, o)
                            || (f == from && o == to && probes(edge, ids, t))) by {}
                    }
                },
                ProbeSet::FirstSet { start, len } => {
                    let ghost all = entering(tokens, p, to as int, tokens.len() as int);
                    proof {
                        lemma_entering(tokens, p, to as int, tokens.len() as int);
                    }
                    let listed: usize = graph.first_set_ids.len();
                    let mut k: usize = 0;
                    while k < len as usize
                        invariant
                            k <= len,
                            listed == ids.len(),
                            ids == graph.first_set_ids@,
                            start + len <= ids.len(),
                            all == ids.subrange(start as int, start + len),
                            forall|t: Token| #[trigger] all.contains(t) ==> t < tokens.len(),
                            tokens.len() <= width,
                            steps.rows@.len() == width,
                            steps0.rows@.len() == width,
                            from <= 65535,
                            to <= 65535,
                            forall|t: int, f: int, o: int|
                                0 <= t < width ==> (#[trigger] has_step(steps.row(t), f, o)
                                    <==> has_step(steps0.row(t), f, o) || (f == from && o == to
                                    && exists|j: int| 0 <= j < k && #[trigger] all[j] == t)),
                        decreases len - k,
                    {
                        let id: Token = graph.first_set_ids[start as usize + k];
                        let ghost before = steps;
                        assert(id == all[k as int]);
                        assert(all.contains(id));
                        steps.add(id, from, to);
                        proof {
                            assert forall|t: int, f: int, o: int| 0 <= t < width implies (
                            #[trigger] has_step(steps.row(t), f, o) <==> has_step(
                                steps0.row(t),
                                f,
                                o,
                            ) || (f == from && o == to && exists|j: int|
                                0 <= j < k + 1 && #[trigger] all[j] == t)) by {
                                assert(has_step(before.row(t), f, o) <==> has_step(
                                    steps0.row(t),
                                    f,
                                    o,
                                ) || (f == from && o == to && exists|j: int|
                                    0 <= j < k && #[trigger] all[j] == t));
                            }
                        }
                        k = k + 1;
                    }
                    proof {
                        assert forall|t: int, f: int, o: int| 0 <= t < width implies (
                        #[trigger] has_step(steps.row(t), f, o) <==> has_step(steps0.row(t), f, o)
                            || (f == from && o == to && probes(edge, ids, t))) by {
                            if 0 <= t <= Token::MAX && all.contains(t as Token) {
                                let j = choose|j: int| 0 <= j < all.len() && all[j] == t as Token;
                                assert(all[j] == t);
                            }
                            if exists|j: int| 0 <= j < len && #[trigger] all[j] == t {
                                let j = choose|j: int| 0 <= j < len && #[trigger] all[j] == t;
                                assert(all.contains(all[j]));
                            }
                        }
                    }
                },
                ProbeSet::TooBigSet => {
                    let prefix = &needle[0..to as usize];
                    assert(prefix@ =~= p.take(to as int));
                    nodes[to as usize].entry = Some(NeedlePrefix::new(prefix));
                    proof {
                        assert(wide_entry(edges[i as int], to as int));
                        assert forall|t: int, f: int, o: int| 0 <= t < width implies (
                        #[trigger] has_step(steps.row(t), f, o) <==> has_step(steps0.row(t), f, o)
                            || (f == from && o == to && probes(edge, ids, t))) by {}
                    }
                },
            }
            proof {
                assert forall|o: int| 0 <= o <= n implies node_ok(
                    #[trigger] nodes@[o],
                    edges,
                    p,
                    o,
                    i + 1,
                ) by {
                    lemma_node_step(nodes0[o], nodes@[o], edges, p, o, i as int);
                }
                assert forall|t: int, f: int, o: int| 0 <= t < width implies (#[trigger] has_step(
                    steps.row(t),
                    f,
                    o,
                ) <==> has_probe(edges, ids, i + 1, t, f, o)) by {
                    lemma_probe_step(edges, ids, i as int, t, f, o);
                    assert(has_step(steps0.row(t), f, o) <==> has_probe(
                        edges,
                        ids,
                        i as int,
                        t,
                        f,
                        o,
                    ));
                }
            }
            i = i + 1;
        }
        // A token that contains the whole needle is a step from source to sink.
        let held: usize = graph.contained.len();
        let ghost cs = graph.contained@;
        let ghost steps0 = steps;
        let mut k: usize = 0;
        while k < held
            invariant
                k <= held,
                held == cs.len(),
                cs == graph.contained@,
                are_containing(cs, tokens, p),
                n == p.len(),
                n <= 65535,
                tokens.len() <= width,
                steps.rows@.len() == width,
                steps0.rows@.len() == width,
                forall|t: int, f: int, o: int|
                    0 <= t < width ==> (#[trigger] has_step(steps.row(t), f, o) <==> has_step(
                        steps0.row(t),
                        f,
                        o,
                    ) || (f == 0 && o == n && exists|j: int| 0 <= j < k && #[trigger] cs[j] == t)),
            decreases held - k,
        {
            let id: Token = graph.contained[k];
            let ghost before = steps;
            assert(cs.contains(id));
            steps.add(id, SOURCE, n as u32);
            proof {
                assert forall|t: int, f: int, o: int| 0 <= t < width implies (#[trigger] has_step(
                    steps.row(t),
                    f,
                    o,
                ) <==> has_step(steps0.row(t), f, o) || (f == 0 && o == n && exists|j: int|
                    0 <= j < k + 1 && #[trigger] cs[j] == t)) by {
                    assert(has_step(before.row(t), f, o) <==> has_step(steps0.row(t), f, o) || (f
                        == 0 && o == n && exists|j: int| 0 <= j < k && #[trigger] cs[j] == t));
                }
            }
            k = k + 1;
        }
        let r = Walk {
            nodes,
            steps,
            edges: Ghost(edges),
            ids: Ghost(ids),
            tokens: Ghost(tokens),
            needle: Ghost(p),
            sums: Ghost(sums),
        };
        proof {
            assert forall|t: int, from: int, to: int| 0 <= t < tokens.len() implies (
            #[trigger] has_step(r.steps.row(t), from, to) <==> has_probe(
                edges,
                ids,
                m as int,
                t,
                from,
                to,
            ) || (from == 0 && to == n && contains(tokens[t], p))) by {
                assert(has_step(steps0.row(t), from, to) <==> has_probe(
                    edges,
                    ids,
                    m as int,
                    t,
                    from,
                    to,
                ));
                assert((exists|j: int| 0 <= j < held && #[trigger] cs[j] == t) <==> contains(
                    tokens[t],
                    p,
                )) by {
                    assert(cs.contains(t as Token) <==> contains(tokens[t], p));
                    if cs.contains(t as Token) {
                        let j = choose|j: int| 0 <= j < cs.len() && cs[j] == t as Token;
                        assert(cs[j] == t);
                    }
                    if exists|j: int| 0 <= j < held && #[trigger] cs[j] == t {
                        let j = choose|j: int| 0 <= j < held && #[trigger] cs[j] == t;
                        assert(cs.contains(cs[j]));
                    }
                }
            }
        }
        r
    }
}

/// Of the edges out of a node only one is a greedy step, and only one ends
/// the needle.
proof fn lemma_one_edge(
    edges: Seq<Edge>,
    ids: Seq<Token>,
    tokens: Seq<Seq<u8>>,
    needle: Seq<u8>,
    sums: Seq<u32>,
    i: int,
    k: int,
)
    requires
        is_graph(edges, ids, tokens, needle, sums),
        0 <= i < edges.len(),
        0 <= k < edges.len(),
        same_step(edges[i], edges[k]),
    ensures
        i == k,
{
    if i < k {
        lemma_distinct(edges, ids, tokens, needle, sums, i, k);
    } else if k < i {
        lemma_distinct(edges, ids, tokens, needle, sums, k, i);
    }
}

/// Where an edge that a token takes to `o` comes from: the source, or as far
/// back as the token is long.
proof fn lemma_from(
    edges: Seq<Edge>,
    ids: Seq<Token>,
    tokens: Seq<Seq<u8>>,
    needle: Seq<u8>,
    sums: Seq<u32>,
    i: int,
    t: int,
)
    requires
        is_graph(edges, ids, tokens, needle, sums),
        conformant(tokens),
        0 <= i < edges.len(),
        0 <= t < tokens.len(),
        admits(edges[i], ids, tokens, needle, t),
        edges[i].to < needle.len(),
    ensures
        edges[i].from == if tokens[t].len() >= edges[i].to {
            0
        } else {
            edges[i].to - tokens[t].len()
        },
{
    lemma_edge_spells(edges, ids, tokens, needle, sums, i, t);
}

impl Walk {
    /// What holds of a row that the walk is asked about.
    pub open spec fn takes(
        &self,
        dict: DictView<'_>,
        codes: Seq<Token>,
        row_start: int,
        row_end: int,
    ) -> bool {
        &&& self.wf()
        &&& dict.wf()
        &&& dict.tokens() == self.model().tokens
        &&& 0 <= row_start <= row_end <= codes.len()
        &&& codes_ok(codes, self.model().tokens.len())
    }

    /// The node with every needle byte consumed.
    fn sink(&self) -> (r: u32)
        requires
            self.wf(),
        ensures
            r == self.model().needle.len(),
    {
        (self.nodes.len() - 1) as u32
    }

    /// Whether an occurrence of the needle inside `codes[row_start..row_end]`
    /// has the token at `hit_code_index` as one of its parse steps.
    pub fn check(
        &self,
        dict: DictView<'_>,
        codes: &[Token],
        row_start: usize,
        row_end: usize,
        hit_code_index: usize,
    ) -> (r: bool)
        requires
            self.takes(dict, codes@, row_start as int, row_end as int),
            row_start <= hit_code_index < row_end,
        ensures
            r == passes(
                self.model().edges,
                self.model().ids,
                self.model().tokens,
                self.model().needle,
                codes@.subrange(row_start as int, row_end as int),
                hit_code_index - row_start,
            ),
    {
        let ghost m = self.model();
        let ghost row = codes@.subrange(row_start as int, row_end as int);
        let ghost h = hit_code_index - row_start;
        let ghost n = m.needle.len() as int;
        let hit: Token = codes[hit_code_index];
        assert(hit == row[h]);
        assert(hit < m.tokens.len());
        let list: &Vec<Step> = &self.steps.rows[hit as usize];
        let ghost steps = list@;
        assert(steps == self.steps.row(hit as int));
        let mut k: usize = 0;
        while k < list.len()
            invariant
                self.takes(dict, codes@, row_start as int, row_end as int),
                row_start <= hit_code_index < row_end,
                m == self.model(),
                n == m.needle.len(),
                row == codes@.subrange(row_start as int, row_end as int),
                h == hit_code_index - row_start,
                hit == row[h],
                hit < m.tokens.len(),
                steps == list@,
                steps == self.steps.row(hit as int),
                k <= steps.len(),
                forall|j: int|
                    0 <= j < k ==> !(leads_back(
                        m.edges,
                        m.ids,
                        m.tokens,
                        m.needle,
                        row,
                        (#[trigger] steps[j]).from as int,
                        h,
                    ) && goes_on(
                        m.edges,
                        m.ids,
                        m.tokens,
                        m.needle,
                        row,
                        steps[j].to as int,
                        h + 1,
                    )),
            decreases steps.len() - k,
        {
            let step: Step = list[k];
            let from: u32 = step.from as u32;
            let to: u32 = step.to as u32;
            proof {
                assert(has_step(steps, from as int, to as int)) by {
                    assert(steps[k as int].from == from && steps[k as int].to == to);
                }
                self.lemma_step_ends(hit as int, from as int, to as int);
            }
            let ahead: bool = to == self.sink() || self.forward(
                to,
                hit_code_index + 1,
                codes,
                row_end,
                Ghost(row_start as int),
                Ghost(dict),
            );
            if ahead && self.backward(from, hit_code_index, codes, row_start, dict, Ghost(
                row_end as int,
            )) {
                proof {
                    self.lemma_found(row, h, from as int, to as int);
                }
                return true;
            }
            k = k + 1;
        }
        proof {
            if passes(m.edges, m.ids, m.tokens, m.needle, row, h) {
                if contains(m.tokens[hit as int], m.needle) {
                    assert(has_step(steps, 0, n));
                    let j = choose|j: int|
                        0 <= j < steps.len() && (#[trigger] steps[j]).from == 0 && steps[j].to == n;
                    assert(steps[j].from == 0);
                } else {
                    let i = choose|i: int|
                        0 <= i < m.edges.len() && probes(
                            #[trigger] m.edges[i],
                            m.ids,
                            hit as int,
                        ) && leads_back(
                            m.edges,
                            m.ids,
                            m.tokens,
                            m.needle,
                            row,
                            m.edges[i].from as int,
                            h,
                        ) && goes_on(
                            m.edges,
                            m.ids,
                            m.tokens,
                            m.needle,
                            row,
                            m.edges[i].to as int,
                            h + 1,
                        );
                    let f = m.edges[i].from as int;
                    let o = m.edges[i].to as int;
                    assert(has_probe(m.edges, m.ids, m.edges.len() as int, hit as int, f, o));
                    assert(has_step(steps, f, o));
                    let j = choose|j: int|
                        0 <= j < steps.len() && (#[trigger] steps[j]).from == f && steps[j].to == o;
                    assert(steps[j].from == f);
                }
            }
        }
        false
    }

    /// The ends of a step are nodes, and it comes before the sink.
    proof fn lemma_step_ends(&self, t: int, from: int, to: int)
        requires
            self.wf(),
            0 <= t < self.model().tokens.len(),
            has_step(self.steps.row(t), from, to),
        ensures
            0 <= from < to <= self.model().needle.len(),
    {
        let m = self.model();
        if has_probe(m.edges, m.ids, m.edges.len() as int, t, from, to) {
            let i = choose|i: int|
                0 <= i < m.edges.len() && (#[trigger] m.edges[i]).from == from && m.edges[i].to == to
                    && probes(m.edges[i], m.ids, t);
            lemma_edge_spells(m.edges, m.ids, m.tokens, m.needle, m.sums, i, t);
        }
    }

    /// A step of the hit that passes both walks.
    proof fn lemma_found(&self, row: Seq<Token>, h: int, from: int, to: int)
        requires
            self.wf(),
            0 <= h < row.len(),
            row[h] < self.model().tokens.len(),
            has_step(self.steps.row(row[h] as int), from, to),
            leads_back(
                self.model().edges,
                self.model().ids,
                self.model().tokens,
                self.model().needle,
                row,
                from,
                h,
            ),
            goes_on(
                self.model().edges,
                self.model().ids,
                self.model().tokens,
                self.model().needle,
                row,
                to,
                h + 1,
            ),
        ensures
            passes(
                self.model().edges,
                self.model().ids,
                self.model().tokens,
                self.model().needle,
                row,
                h,
            ),
    {
        let m = self.model();
        let t = row[h] as int;
        if has_probe(m.edges, m.ids, m.edges.len() as int, t, from, to) {
            let i = choose|i: int|
                0 <= i < m.edges.len() && (#[trigger] m.edges[i]).from == from && m.edges[i].to == to
                    && probes(m.edges[i], m.ids, t);
            assert(probes(m.edges[i], m.ids, row[h] as int));
        }
    }

    /// Whether the greedy path from `node`, reading `codes[code_index..row_end]`,
    /// reaches the sink.
    fn forward(
        &self,
        node: u32,
        code_index: usize,
        codes: &[Token],
        row_end: usize,
        Ghost(row_start): Ghost<int>,
        Ghost(dict): Ghost<DictView<'_>>,
    ) -> (r: bool)
        requires
            self.takes(dict, codes@, row_start, row_end as int),
            row_start <= code_index <= row_end,
            0 < node < self.model().needle.len(),
        ensures
            r == goes_on(
                self.model().edges,
                self.model().ids,
                self.model().tokens,
                self.model().needle,
                codes@.subrange(row_start, row_end as int),
                node as int,
                code_index - row_start,
            ),
    {
        let ghost m = self.model();
        let ghost row = codes@.subrange(row_start, row_end as int);
        let ghost n = m.needle.len() as int;
        let ghost whole = goes_on(
            m.edges,
            m.ids,
            m.tokens,
            m.needle,
            row,
            node as int,
            code_index - row_start,
        );
        let mut place: u32 = node;
        let mut next: usize = code_index;
        while next < row_end
            invariant
                self.takes(dict, codes@, row_start, row_end as int),
                m == self.model(),
                n == m.needle.len(),
                row == codes@.subrange(row_start, row_end as int),
                row_start <= next <= row_end,
                0 < place < n,
                code_index <= next,
                whole == goes_on(m.edges, m.ids, m.tokens, m.needle, row, node as int, code_index - row_start),
                whole == goes_on(
                    m.edges,
                    m.ids,
                    m.tokens,
                    m.needle,
                    row,
                    place as int,
                    next - row_start,
                ),
            decreases row_end - next,
        {
            let code: Token = codes[next];
            let ghost j = next - row_start;
            assert(code == row[j]);
            let at: &Node = &self.nodes[place as usize];
            let ends: bool = match at.terminal_range {
                Some(range) => range.contains(code),
                None => false,
            };
            if ends {
                proof {
                    self.lemma_ends_here(row, place as int, j);
                }
                return true;
            }
            match at.greedy_step {
                Some((step_token, next_node)) => {
                    proof {
                        self.lemma_only_greedy(row, place as int, j);
                    }
                    if step_token != code {
                        return false;
                    }
                    place = next_node;
                    next = next + 1;
                },
                None => {
                    proof {
                        self.lemma_only_greedy(row, place as int, j);
                    }
                    return false;
                },
            }
        }
        false
    }

    /// A terminal range that holds the code ends the needle.
    proof fn lemma_ends_here(&self, row: Seq<Token>, o: int, j: int)
        requires
            self.wf(),
            0 < o < self.model().needle.len(),
            0 <= j < row.len(),
            self.nodes@[o].terminal_range matches Some(r) && r.has(row[j] as int),
        ensures
            goes_on(
                self.model().edges,
                self.model().ids,
                self.model().tokens,
                self.model().needle,
                row,
                o,
                j,
            ),
    {
        let m = self.model();
        let r = self.nodes@[o].terminal_range->0;
        assert(node_ok(self.nodes@[o], m.edges, m.needle, o, m.edges.len() as int));
        let i = choose|i: int|
            0 <= i < m.edges.len() && ends_from(#[trigger] m.edges[i], o) && m.edges[i].probe
                == ProbeSet::Range(r);
        lemma_edge(m.edges, m.ids, m.tokens, m.needle, m.sums, i);
        assert(admits(m.edges[i], m.ids, m.tokens, m.needle, row[j] as int));
        assert(goes_on(
            m.edges,
            m.ids,
            m.tokens,
            m.needle,
            row,
            m.edges[i].to as int,
            j + 1,
        ));
    }

    /// A code that does not end the needle goes on by the greedy step alone.
    proof fn lemma_only_greedy(&self, row: Seq<Token>, o: int, j: int)
        requires
            self.wf(),
            0 < o < self.model().needle.len(),
            0 <= j < row.len(),
            row[j] < self.model().tokens.len(),
            !(self.nodes@[o].terminal_range matches Some(r) && r.has(row[j] as int)),
        ensures
            self.nodes@[o].greedy_step matches Some((t, to)) ==> 0 < to
                < self.model().needle.len(),
            goes_on(
                self.model().edges,
                self.model().ids,
                self.model().tokens,
                self.model().needle,
                row,
                o,
                j,
            ) == (self.nodes@[o].greedy_step matches Some((t, to)) && t == row[j] && goes_on(
                self.model().edges,
                self.model().ids,
                self.model().tokens,
                self.model().needle,
                row,
                to as int,
                j + 1,
            )),
    {
        let m = self.model();
        let node = self.nodes@[o];
        let code = row[j];
        assert(node_ok(node, m.edges, m.needle, o, m.edges.len() as int));
        if node.greedy_step is Some {
            let t = (node.greedy_step->0).0;
            let to = (node.greedy_step->0).1;
            let i = choose|i: int|
                0 <= i < m.edges.len() && points_from(#[trigger] m.edges[i], o) && m.edges[i].probe
                    == ProbeSet::Point(t) && m.edges[i].to == to;
            lemma_edge(m.edges, m.ids, m.tokens, m.needle, m.sums, i);
            crate::search::prefilter::layout::lemma_step_inside(
                m.tokens,
                m.needle,
                o,
                t,
                to - o,
            );
            if t == code {
                assert(admits(m.edges[i], m.ids, m.tokens, m.needle, code as int));
            }
        }
        if goes_on(m.edges, m.ids, m.tokens, m.needle, row, o, j) {
            let i = choose|i: int|
                0 <= i < m.edges.len() && (#[trigger] m.edges[i]).from == o && admits(
                    m.edges[i],
                    m.ids,
                    m.tokens,
                    m.needle,
                    row[j] as int,
                ) && goes_on(
                    m.edges,
                    m.ids,
                    m.tokens,
                    m.needle,
                    row,
                    m.edges[i].to as int,
                    j + 1,
                );
            lemma_edge(m.edges, m.ids, m.tokens, m.needle, m.sums, i);
            if m.edges[i].probe is Range {
                assert(ends_from(m.edges[i], o));
                let r = node.terminal_range->0;
                let k = choose|k: int|
                    0 <= k < m.edges.len() && ends_from(#[trigger] m.edges[k], o)
                        && m.edges[k].probe == ProbeSet::Range(r);
                lemma_one_edge(m.edges, m.ids, m.tokens, m.needle, m.sums, i, k);
            } else {
                assert(m.edges[i].probe is Point);
                assert(points_from(m.edges[i], o));
                let t = (node.greedy_step->0).0;
                let to = (node.greedy_step->0).1;
                let k = choose|k: int|
                    0 <= k < m.edges.len() && points_from(#[trigger] m.edges[k], o)
                        && m.edges[k].probe == ProbeSet::Point(t) && m.edges[k].to == to;
                lemma_one_edge(m.edges, m.ids, m.tokens, m.needle, m.sums, i, k);
            }
        }
    }

    /// Whether some path from the source reaches `node` with
    /// `codes[code_end - 1]` as its last step, reading no further back than
    /// `row_start`. A loop, not a search: only one step of a token enters a
    /// node.
    fn backward(
        &self,
        node: u32,
        code_end: usize,
        codes: &[Token],
        row_start: usize,
        dict: DictView<'_>,
        Ghost(row_end): Ghost<int>,
    ) -> (r: bool)
        requires
            self.takes(dict, codes@, row_start as int, row_end),
            row_start <= code_end <= row_end,
            node < self.model().needle.len(),
        ensures
            r == leads_back(
                self.model().edges,
                self.model().ids,
                self.model().tokens,
                self.model().needle,
                codes@.subrange(row_start as int, row_end),
                node as int,
                code_end - row_start,
            ),
    {
        let ghost m = self.model();
        let ghost row = codes@.subrange(row_start as int, row_end);
        let ghost n = m.needle.len() as int;
        let ghost whole = leads_back(
            m.edges,
            m.ids,
            m.tokens,
            m.needle,
            row,
            node as int,
            code_end - row_start,
        );
        let mut place: u32 = node;
        let mut end: usize = code_end;
        while place != SOURCE
            invariant
                self.takes(dict, codes@, row_start as int, row_end),
                m == self.model(),
                n == m.needle.len(),
                row == codes@.subrange(row_start as int, row_end),
                row_start <= end <= row_end,
                place < n,
                whole == leads_back(m.edges, m.ids, m.tokens, m.needle, row, node as int, code_end - row_start),
                whole == leads_back(
                    m.edges,
                    m.ids,
                    m.tokens,
                    m.needle,
                    row,
                    place as int,
                    end - row_start,
                ),
            decreases end - row_start,
        {
            if end <= row_start {
                return false;
            }
            let code: Token = codes[end - 1];
            let ghost j = end - row_start;
            assert(code == row[j - 1]);
            assert(code < m.tokens.len());
            match self.entering_step(code, place) {
                Some(from) => {
                    proof {
                        self.lemma_back_step(row, place as int, j, from as int);
                    }
                    place = from;
                    end = end - 1;
                },
                None => {
                    proof {
                        self.lemma_back_entry(row, place as int, j);
                    }
                    match &self.nodes[place as usize].entry {
                        Some(prefix) => {
                            return prefix.is_tail_of(dict, code);
                        },
                        None => {
                            return false;
                        },
                    }
                },
            }
        }
        true
    }

    /// Where the step of `token` into `node` comes from.
    fn entering_step(&self, token: Token, node: u32) -> (r: Option<u32>)
        requires
            self.wf(),
            token < self.model().tokens.len(),
            node < self.model().needle.len(),
        ensures
            r matches Some(from) ==> has_step(
                self.steps.row(token as int),
                from as int,
                node as int,
            ),
            r is None ==> forall|from: int| !#[trigger] has_step(
                self.steps.row(token as int),
                from,
                node as int,
            ),
    {
        let list: &Vec<Step> = &self.steps.rows[token as usize];
        let mut k: usize = 0;
        while k < list.len()
            invariant
                list@ == self.steps.row(token as int),
                k <= list@.len(),
                forall|j: int| 0 <= j < k ==> (#[trigger] list@[j]).to != node,
            decreases list@.len() - k,
        {
            let step: Step = list[k];
            if step.to as u32 == node {
                assert(list@[k as int].to == node);
                return Some(step.from as u32);
            }
            k = k + 1;
        }
        None
    }

    proof fn lemma_back_step(&self, row: Seq<Token>, o: int, j: int, from: int)
        requires
            self.wf(),
            0 < o < self.model().needle.len(),
            0 < j <= row.len(),
            row[j - 1] < self.model().tokens.len(),
            has_step(self.steps.row(row[j - 1] as int), from, o),
        ensures
            0 <= from < self.model().needle.len(),
            leads_back(
                self.model().edges,
                self.model().ids,
                self.model().tokens,
                self.model().needle,
                row,
                o,
                j,
            ) == leads_back(
                self.model().edges,
                self.model().ids,
                self.model().tokens,
                self.model().needle,
                row,
                from,
                j - 1,
            ),
    {
        let m = self.model();
        let t = row[j - 1] as int;
        assert(has_probe(m.edges, m.ids, m.edges.len() as int, t, from, o));
        let i = choose|i: int|
            0 <= i < m.edges.len() && (#[trigger] m.edges[i]).from == from && m.edges[i].to == o
                && probes(m.edges[i], m.ids, t);
        assert(admits(m.edges[i], m.ids, m.tokens, m.needle, t));
        lemma_edge_spells(m.edges, m.ids, m.tokens, m.needle, m.sums, i, t);
        lemma_from(m.edges, m.ids, m.tokens, m.needle, m.sums, i, t);
        if leads_back(m.edges, m.ids, m.tokens, m.needle, row, o, j) {
            let k = choose|k: int|
                0 <= k < m.edges.len() && (#[trigger] m.edges[k]).to == o && admits(
                    m.edges[k],
                    m.ids,
                    m.tokens,
                    m.needle,
                    row[j - 1] as int,
                ) && leads_back(
                    m.edges,
                    m.ids,
                    m.tokens,
                    m.needle,
                    row,
                    m.edges[k].from as int,
                    j - 1,
                );
            lemma_from(m.edges, m.ids, m.tokens, m.needle, m.sums, k, t);
        }
    }

    proof fn lemma_back_entry(&self, row: Seq<Token>, o: int, j: int)
        requires
            self.wf(),
            0 < o < self.model().needle.len(),
            0 < j <= row.len(),
            row[j - 1] < self.model().tokens.len(),
            forall|from: int| !#[trigger] has_step(self.steps.row(row[j - 1] as int), from, o),
        ensures
            leads_back(
                self.model().edges,
                self.model().ids,
                self.model().tokens,
                self.model().needle,
                row,
                o,
                j,
            ) == (self.nodes@[o].entry matches Some(p) && ends_with(
                self.model().tokens[row[j - 1] as int],
                p.bytes@,
            )),
    {
        let m = self.model();
        let t = row[j - 1] as int;
        let node = self.nodes@[o];
        assert(node_ok(node, m.edges, m.needle, o, m.edges.len() as int));
        if leads_back(m.edges, m.ids, m.tokens, m.needle, row, o, j) {
            let k = choose|k: int|
                0 <= k < m.edges.len() && (#[trigger] m.edges[k]).to == o && admits(
                    m.edges[k],
                    m.ids,
                    m.tokens,
                    m.needle,
                    row[j - 1] as int,
                ) && leads_back(
                    m.edges,
                    m.ids,
                    m.tokens,
                    m.needle,
                    row,
                    m.edges[k].from as int,
                    j - 1,
                );
            if probes(m.edges[k], m.ids, t) {
                let f = m.edges[k].from as int;
                assert(has_probe(m.edges, m.ids, m.edges.len() as int, t, f, o));
                assert(has_step(self.steps.row(t), f, o));
            }
            assert(wide_entry(m.edges[k], o));
        }
        if node.entry is Some && ends_with(m.tokens[t], node.entry->0.bytes@) {
            let k = choose|k: int| 0 <= k < m.edges.len() && wide_entry(#[trigger] m.edges[k], o);
            lemma_edge(m.edges, m.ids, m.tokens, m.needle, m.sums, k);
            assert(admits(m.edges[k], m.ids, m.tokens, m.needle, t));
            assert(leads_back(m.edges, m.ids, m.tokens, m.needle, row, 0, j - 1));
        }
    }
}

/// The token of a greedy step is one of the dictionary.
proof fn lemma_point_in(tokens: Seq<Seq<u8>>, needle: Seq<u8>, e: Edge, t: Token)
    requires
        conformant(tokens),
        e.probe == ProbeSet::Point(t),
        crate::search::prefilter::graph::is_step(
            tokens,
            needle,
            e.from as int,
            t,
            e.to - e.from,
        ),
        e.to < needle.len(),
    ensures
        t < tokens.len() || t == ESCAPE,
        e.from < needle.len(),
{
    let rest = needle.skip(e.from as int);
    if crate::search::lookup::is_longest(tokens, rest, t as int) {
        assert(tokens[t as int].len() >= 1);
    }
}

/// What the next edge adds to a node.
proof fn lemma_node_step(
    before: Node,
    node: Node,
    edges: Seq<Edge>,
    needle: Seq<u8>,
    o: int,
    i: int,
)
    requires
        0 <= i < edges.len(),
        node_ok(before, edges, needle, o, i),
        node.greedy_step == (if points_from(edges[i], o) {
            Some((edges[i].probe->Point_0, edges[i].to))
        } else {
            before.greedy_step
        }),
        node.terminal_range == (if ends_from(edges[i], o) {
            Some(edges[i].probe->Range_0)
        } else {
            before.terminal_range
        }),
        if wide_entry(edges[i], o) {
            node.entry matches Some(p) && p.bytes@ == needle.take(o)
        } else {
            node.entry == before.entry
        },
    ensures
        node_ok(node, edges, needle, o, i + 1),
{
    assert(edges[i] == edges[i]);
}

/// What the next edge adds to the probes.
proof fn lemma_probe_step(edges: Seq<Edge>, ids: Seq<Token>, i: int, t: int, from: int, to: int)
    requires
        0 <= i < edges.len(),
    ensures
        has_probe(edges, ids, i + 1, t, from, to) <==> has_probe(edges, ids, i, t, from, to) || (
        edges[i].from == from && edges[i].to == to && probes(edges[i], ids, t)),
{
    if has_probe(edges, ids, i + 1, t, from, to) {
        let j = choose|j: int|
            0 <= j < i + 1 && (#[trigger] edges[j]).from == from && edges[j].to == to && probes(
                edges[j],
                ids,
                t,
            );
        if j < i {
            assert(has_probe(edges, ids, i, t, from, to));
        }
    }
    if has_probe(edges, ids, i, t, from, to) {
        let j = choose|j: int|
            0 <= j < i && (#[trigger] edges[j]).from == from && edges[j].to == to && probes(
                edges[j],
                ids,
                t,
            );
        assert(edges[j].from == from);
    }
    assert(edges[i] == edges[i]);
}

} // verus!
