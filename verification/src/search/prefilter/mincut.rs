//! Minimum-weight cut of the alignment graph: the cheapest sound cover.
//!
//! Every source-to-sink path is one layout of the pattern across token
//! boundaries, and a set of probes that meets every path is a cover that the
//! scan can trust. Probes are edges, so the cheapest such set is a minimum cut
//! of the edge weights, found by a maximum flow. The steps that no probe
//! stands for get a capacity that no finite cut can reach.

use crate::search::prefilter::dinic::{arcs_ok, min_side, out_capacity, parts, Arc};
use crate::search::prefilter::graph::{Edge, Nodes};
use vstd::prelude::*;

verus! {

/// `path` leads along edges from one node to another.
pub open spec fn is_path(edges: Seq<Edge>, path: Seq<int>, from: int, to: int) -> bool
    decreases path.len(),
{
    if path.len() == 0 {
        from == to
    } else {
        &&& 0 <= path.last() < edges.len()
        &&& edges[path.last()].to == to
        &&& is_path(edges, path.drop_last(), from, edges[path.last()].from as int)
    }
}

/// The path takes one of the edges.
pub open spec fn meets(path: Seq<int>, cut: spec_fn(int) -> bool) -> bool {
    exists|k: int| 0 <= k < path.len() && cut(#[trigger] path[k])
}

/// Every path from `source` to `sink` takes one of the edges.
pub open spec fn separates(
    edges: Seq<Edge>,
    cut: spec_fn(int) -> bool,
    source: int,
    sink: int,
) -> bool {
    forall|path: Seq<int>| #[trigger] is_path(edges, path, source, sink) ==> meets(path, cut)
}

/// The edges that a cut may select.
pub open spec fn all_cuttable(edges: Seq<Edge>) -> spec_fn(int) -> bool {
    |i: int| 0 <= i < edges.len() && edges[i].cuttable()
}

/// The edges of a list.
pub open spec fn picked(cut: Seq<u32>) -> spec_fn(int) -> bool {
    |i: int| exists|k: int| 0 <= k < cut.len() && #[trigger] cut[k] == i
}

/// What the edges of a cut among the first `k` cost together.
pub open spec fn cost_of(edges: Seq<Edge>, cut: spec_fn(int) -> bool, k: int) -> int
    decreases k,
{
    if k <= 0 {
        0
    } else {
        cost_of(edges, cut, k - 1) + if cut(k - 1) {
            edges[k - 1].weight as int
        } else {
            0
        }
    }
}

/// Edge `i` leads out of a side of the nodes.
pub open spec fn leaves(edges: Seq<Edge>, side: Seq<bool>, i: int) -> bool {
    0 <= i < edges.len() && side[edges[i].from as int] && !side[edges[i].to as int]
}

/// The edges that lead out of a side.
pub open spec fn leaving(edges: Seq<Edge>, side: Seq<bool>) -> spec_fn(int) -> bool {
    |i: int| leaves(edges, side, i)
}

/// A side with `source` and not `sink` that a cut may be made round.
pub open spec fn can_part(edges: Seq<Edge>, side: Seq<bool>, source: int, sink: int) -> bool {
    &&& parts(side, source, sink)
    &&& forall|i: int| #[trigger] leaves(edges, side, i) ==> edges[i].cuttable()
}

/// What the cut round a side costs.
pub open spec fn side_cost(edges: Seq<Edge>, side: Seq<bool>) -> int {
    cost_of(edges, leaving(edges, side), edges.len() as int)
}

/// The cheapest side to cut round, and of those the smallest.
pub open spec fn is_min_side(edges: Seq<Edge>, side: Seq<bool>, source: int, sink: int) -> bool {
    &&& can_part(edges, side, source, sink)
    &&& forall|other: Seq<bool>| #[trigger]
        can_part(edges, other, source, sink) ==> side_cost(edges, side) <= side_cost(edges, other)
    &&& forall|other: Seq<bool>, v: int| #[trigger]
        can_part(edges, other, source, sink) && side_cost(edges, other) == side_cost(edges, side)
            && 0 <= v < side.len() && #[trigger] side[v] ==> other[v]
}

/// The edges go between nodes up to `sink`.
pub open spec fn edges_ok(edges: Seq<Edge>, sink: int) -> bool {
    forall|i: int|
        0 <= i < edges.len() ==> (#[trigger] edges[i]).from <= sink && edges[i].to <= sink
}

proof fn lemma_cost_bounds(edges: Seq<Edge>, a: spec_fn(int) -> bool, b: spec_fn(int) -> bool, k: int)
    requires
        0 <= k <= edges.len(),
        forall|i: int| 0 <= i < edges.len() && #[trigger] a(i) ==> b(i),
    ensures
        0 <= cost_of(edges, a, k) <= cost_of(edges, b, k) <= k * u32::MAX,
    decreases k,
{
    if k > 0 {
        lemma_cost_bounds(edges, a, b, k - 1);
        assert(a(k - 1) ==> b(k - 1));
    }
}

/// A path from inside a side to outside it leaves it.
proof fn lemma_path_leaves(edges: Seq<Edge>, path: Seq<int>, from: int, to: int, side: Seq<bool>) -> (k:
    int)
    requires
        is_path(edges, path, from, to),
        side[from],
        !side[to],
    ensures
        0 <= k < path.len(),
        leaves(edges, side, path[k]),
    decreases path.len(),
{
    let e = path.last();
    if path.len() == 0 {
        0
    } else if side[edges[e].from as int] {
        path.len() - 1
    } else {
        lemma_path_leaves(edges, path.drop_last(), from, edges[e].from as int, side)
    }
}

/// The edges out of a side that a cut may be made round separate the two.
pub proof fn lemma_side_separates(edges: Seq<Edge>, side: Seq<bool>, source: int, sink: int)
    requires
        can_part(edges, side, source, sink),
    ensures
        separates(edges, leaving(edges, side), source, sink),
        forall|i: int| #[trigger] leaving(edges, side)(i) ==> all_cuttable(edges)(i),
{
    assert forall|path: Seq<int>| #[trigger] is_path(edges, path, source, sink) implies meets(
        path,
        leaving(edges, side),
    ) by {
        let k = lemma_path_leaves(edges, path, source, sink, side);
        assert(leaving(edges, side)(path[k]));
    }
    assert forall|i: int| #[trigger] leaving(edges, side)(i) implies all_cuttable(edges)(i) by {
        assert(leaves(edges, side, i));
    }
}

/// The nodes that a path reaches from `source` without the edges of a cut.
spec fn beyond(edges: Seq<Edge>, cut: spec_fn(int) -> bool, source: int, v: int) -> bool {
    exists|path: Seq<int>| #[trigger] is_path(edges, path, source, v) && !meets(path, cut)
}

/// A cut that separates holds all edges out of some side.
proof fn side_of(edges: Seq<Edge>, cut: spec_fn(int) -> bool, source: int, sink: int) -> (side: Seq<
    bool,
>)
    requires
        separates(edges, cut, source, sink),
        edges_ok(edges, sink),
        0 <= source <= sink,
    ensures
        parts(side, source, sink),
        side.len() == sink + 1,
        forall|i: int| #[trigger] leaves(edges, side, i) ==> cut(i),
{
    let side = Seq::new((sink + 1) as nat, |v: int| beyond(edges, cut, source, v));
    let none: Seq<int> = Seq::empty();
    assert(is_path(edges, none, source, source) && !meets(none, cut));
    assert(side[source]);
    assert(!side[sink]);
    assert forall|i: int| #[trigger] leaves(edges, side, i) implies cut(i) by {
        if !cut(i) {
            let from = edges[i].from as int;
            let to = edges[i].to as int;
            let path = choose|path: Seq<int>| #[trigger]
                is_path(edges, path, source, from) && !meets(path, cut);
            let longer = path.push(i);
            assert(longer.drop_last() =~= path);
            assert(is_path(edges, longer, source, to));
            assert(!meets(longer, cut)) by {
                if meets(longer, cut) {
                    let k = choose|k: int| 0 <= k < longer.len() && cut(#[trigger] longer[k]);
                    if k < path.len() {
                        assert(cut(path[k]));
                    }
                }
            }
            assert(beyond(edges, cut, source, to));
            assert(side[to]);
        }
    }
    side
}

/// The capacities of the edges: what cutting one costs, or `infinite`.
spec fn arcs_for(edges: Seq<Edge>, infinite: u64) -> Seq<Arc> {
    Seq::new(
        edges.len(),
        |i: int|
            (edges[i].from, edges[i].to, if edges[i].cuttable() {
                edges[i].weight as u64
            } else {
                infinite
            }),
    )
}

/// The capacity out of a side is what its cut costs, or at least `infinite`.
proof fn lemma_capacity(edges: Seq<Edge>, infinite: u64, side: Seq<bool>, k: int)
    requires
        0 <= k <= edges.len(),
    ensures
        out_capacity(arcs_for(edges, infinite), side, k) >= 0,
        (forall|i: int| 0 <= i < k && #[trigger] leaves(edges, side, i) ==> edges[i].cuttable())
            ==> out_capacity(arcs_for(edges, infinite), side, k) == cost_of(
            edges,
            leaving(edges, side),
            k,
        ),
        forall|i: int|
            0 <= i < k && #[trigger] leaves(edges, side, i) && !edges[i].cuttable()
                ==> out_capacity(arcs_for(edges, infinite), side, k) >= infinite,
    decreases k,
{
    if k > 0 {
        lemma_capacity(edges, infinite, side, k - 1);
        assert(leaving(edges, side)(k - 1) == leaves(edges, side, k - 1));
    }
}

/// The cheapest set of cuttable edges whose removal disconnects the source
/// from the sink, in ascending edge order: those out of the cheapest side of
/// the source, and of those sides out of the smallest.
pub fn min_cut(edges: &[Edge], nodes: Nodes) -> (cut: Vec<u32>)
    requires
        2 * edges@.len() <= u32::MAX,
        1 <= nodes.needle_len < u32::MAX,
        nodes.needle_len < usize::MAX - 1,
        edges_ok(edges@, nodes.needle_len as int),
        separates(edges@, all_cuttable(edges@), 0, nodes.needle_len as int),
    ensures
        forall|a: int, b: int| 0 <= a < b < cut@.len() ==> cut@[a] < cut@[b],
        exists|side: Seq<bool>|
            {
                &&& side.len() == nodes.needle_len + 1
                &&& #[trigger] is_min_side(edges@, side, 0, nodes.needle_len as int)
                &&& forall|i: int| #[trigger] picked(cut@)(i) <==> leaves(edges@, side, i)
            },
        forall|i: int| #[trigger] picked(cut@)(i) ==> all_cuttable(edges@)(i),
        separates(edges@, picked(cut@), 0, nodes.needle_len as int),
        forall|other: spec_fn(int) -> bool|
            #![trigger separates(edges@, other, 0, nodes.needle_len as int)]
            separates(edges@, other, 0, nodes.needle_len as int) && (forall|i: int|
                0 <= i < edges@.len() && #[trigger] other(i) ==> edges@[i].cuttable()) ==> cost_of(
                edges@,
                picked(cut@),
                edges@.len() as int,
            ) <= cost_of(edges@, other, edges@.len() as int),
{
    let ghost es = edges@;
    let ghost n = nodes.needle_len as int;
    let m: usize = edges.len();
    // One more than every finite cut, so that a minimum cut never prefers an
    // uncuttable step.
    let mut finite_sum: u64 = 0;
    let mut i: usize = 0;
    while i < m
        invariant
            i <= m,
            m == es.len(),
            es == edges@,
            2 * m <= u32::MAX,
            finite_sum == cost_of(es, all_cuttable(es), i as int),
            finite_sum <= i * u32::MAX,
        decreases m - i,
    {
        match edges[i].cost() {
            Some(cost) => {
                assert(all_cuttable(es)(i as int));
                assert(i * u32::MAX <= m * u32::MAX) by (nonlinear_arith)
                    requires
                        i <= m,
                ;
                finite_sum = finite_sum + cost as u64;
            },
            None => {
                assert(!all_cuttable(es)(i as int));
            },
        }
        i = i + 1;
    }
    assert(finite_sum < u64::MAX) by (nonlinear_arith)
        requires
            finite_sum <= m * u32::MAX,
            2 * m <= u32::MAX,
    ;
    let infinite: u64 = finite_sum + 1;
    let mut residual: Vec<Arc> = Vec::new();
    let mut i: usize = 0;
    while i < m
        invariant
            i <= m,
            m == es.len(),
            es == edges@,
            residual@.len() == i,
            forall|k: int| 0 <= k < i ==> #[trigger] residual@[k] == arcs_for(es, infinite)[k],
        decreases m - i,
    {
        let edge: Edge = edges[i];
        let cap: u64 = match edge.cost() {
            Some(cost) => cost as u64,
            None => infinite,
        };
        residual.push((edge.from, edge.to, cap));
        i = i + 1;
    }
    let ghost arcs = arcs_for(es, infinite);
    let source: usize = nodes.source() as usize;
    let sink: usize = nodes.sink() as usize;
    proof {
        assert(residual@ =~= arcs);
        assert(arcs_ok(arcs, n + 1)) by {
            assert forall|k: int| 0 <= k < arcs.len() implies (#[trigger] arcs[k]).0 < n + 1
                && arcs[k].1 < n + 1 by {
                assert(es[k].from <= n && es[k].to <= n);
            }
        }
        let first = side_of(es, all_cuttable(es), 0, n);
        assert forall|k: int| #[trigger] leaves(es, first, k) implies es[k].cuttable() by {
            assert(all_cuttable(es)(k));
        }
        lemma_capacity(es, infinite, first, m as int);
        lemma_cost_bounds(es, leaving(es, first), all_cuttable(es), m as int);
        assert(parts(first, 0, n) && out_capacity(arcs, first, m as int) <= finite_sum);
    }
    let flow: (u64, Vec<bool>) = min_side(nodes.count(), residual.as_slice(), source, sink);
    let side: Vec<bool> = flow.1;
    let ghost sd = side@;
    proof {
        lemma_capacity(es, infinite, sd, m as int);
        assert(flow.0 <= finite_sum);
        assert forall|k: int| #[trigger] leaves(es, sd, k) implies es[k].cuttable() by {}
        assert forall|other: Seq<bool>| #[trigger] can_part(es, other, 0, n) implies out_capacity(
            arcs,
            other,
            m as int,
        ) == side_cost(es, other) && side_cost(es, sd) <= side_cost(es, other) by {
            lemma_capacity(es, infinite, other, m as int);
        }
        assert(is_min_side(es, sd, 0, n));
    }
    let mut cut: Vec<u32> = Vec::new();
    let mut i: usize = 0;
    while i < m
        invariant
            i <= m,
            m == es.len(),
            es == edges@,
            2 * m <= u32::MAX,
            sd == side@,
            sd.len() == n + 1,
            edges_ok(es, n),
            forall|k: int| #[trigger] leaves(es, sd, k) ==> es[k].cuttable(),
            forall|k: int| 0 <= k < cut@.len() ==> #[trigger] cut@[k] < i,
            forall|a: int, b: int| 0 <= a < b < cut@.len() ==> cut@[a] < cut@[b],
            forall|k: int| #[trigger] picked(cut@)(k) <==> k < i && leaves(es, sd, k),
        decreases m - i,
    {
        let edge: Edge = edges[i];
        let ghost before = cut@;
        assert(es[i as int].from <= n && es[i as int].to <= n);
        if edge.cost().is_some() && side[edge.from as usize] && !side[edge.to as usize] {
            cut.push(i as u32);
            proof {
                assert forall|k: int| #[trigger] picked(cut@)(k) <==> k < i + 1 && leaves(
                    es,
                    sd,
                    k,
                ) by {
                    if picked(before)(k) {
                        let j = choose|j: int| 0 <= j < before.len() && #[trigger] before[j] == k;
                        assert(cut@[j] == k);
                    }
                    if k == i {
                        assert(cut@[before.len() as int] == k);
                    }
                    if picked(cut@)(k) && k != i {
                        let j = choose|j: int| 0 <= j < cut@.len() && #[trigger] cut@[j] == k;
                        assert(before[j] == k);
                    }
                }
            }
        } else {
            assert(!leaves(es, sd, i as int));
            assert forall|k: int| #[trigger] picked(cut@)(k) <==> k < i + 1 && leaves(
                es,
                sd,
                k,
            ) by {}
        }
        i = i + 1;
    }
    proof {
        assert forall|k: int| #[trigger] picked(cut@)(k) <==> leaves(es, sd, k) by {}
        assert forall|path: Seq<int>| #[trigger] is_path(es, path, 0, n) implies meets(
            path,
            picked(cut@),
        ) by {
            let k = lemma_path_leaves(es, path, 0, n, sd);
            assert(picked(cut@)(path[k]));
        }
        lemma_cost_bounds(es, picked(cut@), leaving(es, sd), m as int);
        assert forall|other: spec_fn(int) -> bool|
            #![trigger separates(es, other, 0, n)]
            separates(es, other, 0, n) && (forall|i: int|
                0 <= i < es.len() && #[trigger] other(i) ==> es[i].cuttable()) implies cost_of(
            es,
            picked(cut@),
            m as int,
        ) <= cost_of(es, other, m as int) by {
            let os = side_of(es, other, 0, n);
            assert(can_part(es, os, 0, n)) by {
                assert forall|k: int| #[trigger] leaves(es, os, k) implies es[k].cuttable() by {
                    assert(other(k));
                }
            }
            lemma_cost_bounds(es, leaving(es, os), other, m as int);
        }
    }
    cut
}

/// A path is a chain of edges: it begins at its first node, each edge goes on
/// where the one before it ended, and it ends at its last node.
pub proof fn lemma_path_means(edges: Seq<Edge>, path: Seq<int>, from: int, to: int)
    ensures
        is_path(edges, path, from, to) <==> {
            &&& forall|k: int| 0 <= k < path.len() ==> 0 <= #[trigger] path[k] < edges.len()
            &&& forall|k: int|
                0 < k < path.len() ==> edges[#[trigger] path[k]].from == edges[path[k - 1]].to
            &&& path.len() == 0 ==> from == to
            &&& path.len() > 0 ==> edges[path[0]].from == from && edges[path[path.len() - 1]].to
                == to
        },
    decreases path.len(),
{
    if path.len() > 0 {
        let rest = path.drop_last();
        let e = path.last();
        lemma_path_means(edges, rest, from, edges[e].from as int);
        assert(path[path.len() - 1] == e);
        let chained = {
            &&& forall|k: int| 0 <= k < path.len() ==> 0 <= #[trigger] path[k] < edges.len()
            &&& forall|k: int|
                0 < k < path.len() ==> edges[#[trigger] path[k]].from == edges[path[k - 1]].to
            &&& edges[path[0]].from == from && edges[path[path.len() - 1]].to == to
        };
        if is_path(edges, path, from, to) {
            assert forall|k: int| 0 <= k < path.len() implies 0 <= #[trigger] path[k]
                < edges.len() by {
                if k < rest.len() {
                    assert(rest[k] == path[k]);
                }
            }
            assert forall|k: int| 0 < k < path.len() implies edges[#[trigger] path[k]].from
                == edges[path[k - 1]].to by {
                if k < rest.len() {
                    assert(rest[k] == path[k] && rest[k - 1] == path[k - 1]);
                } else {
                    assert(rest[rest.len() - 1] == path[k - 1]);
                }
            }
            if rest.len() > 0 {
                assert(rest[0] == path[0]);
            }
        }
        if chained {
            assert(0 <= path[path.len() - 1] < edges.len());
            assert forall|k: int| 0 <= k < rest.len() implies 0 <= #[trigger] rest[k]
                < edges.len() by {
                assert(rest[k] == path[k]);
            }
            assert forall|k: int| 0 < k < rest.len() implies edges[#[trigger] rest[k]].from
                == edges[rest[k - 1]].to by {
                assert(rest[k] == path[k] && rest[k - 1] == path[k - 1]);
            }
            if rest.len() > 0 {
                assert(rest[0] == path[0]);
                assert(rest[rest.len() - 1] == path[path.len() - 2]);
                assert(edges[path[path.len() - 1]].from == edges[path[path.len() - 1 - 1]].to);
            }
        }
    }
}

/// Edges separate two nodes just when every path between them takes one.
pub proof fn lemma_separating_means(
    edges: Seq<Edge>,
    cut: spec_fn(int) -> bool,
    source: int,
    sink: int,
)
    ensures
        separates(edges, cut, source, sink) <==> forall|path: Seq<int>| #[trigger]
            is_path(edges, path, source, sink) ==> exists|k: int|
                0 <= k < path.len() && cut(#[trigger] path[k]),
{
    if separates(edges, cut, source, sink) {
        assert forall|path: Seq<int>| #[trigger] is_path(edges, path, source, sink) implies exists|
            k: int,
        |
            0 <= k < path.len() && cut(#[trigger] path[k]) by {
            assert(meets(path, cut));
        }
    }
    if forall|path: Seq<int>| #[trigger]
        is_path(edges, path, source, sink) ==> exists|k: int|
            0 <= k < path.len() && cut(#[trigger] path[k]) {
        assert forall|path: Seq<int>| #[trigger] is_path(edges, path, source, sink) implies meets(
            path,
            cut,
        ) by {}
    }
}

/// A cut without edges costs nothing, and one edge more adds its weight.
pub proof fn lemma_cost_adds_up(
    edges: Seq<Edge>,
    a: spec_fn(int) -> bool,
    b: spec_fn(int) -> bool,
    i: int,
    k: int,
)
    requires
        0 <= k <= edges.len(),
        0 <= i < edges.len(),
        !a(i),
        b(i),
        forall|j: int| 0 <= j < edges.len() && j != i ==> #[trigger] a(j) == b(j),
    ensures
        cost_of(edges, |j: int| false, k) == 0,
        cost_of(edges, b, k) == cost_of(edges, a, k) + (if i < k {
            edges[i].weight as int
        } else {
            0
        }),
    decreases k,
{
    if k > 0 {
        lemma_cost_adds_up(edges, a, b, i, k - 1);
        if k - 1 != i {
            assert(a(k - 1) == b(k - 1));
        }
    }
}

/// The edges out of the cheapest side cost no more than any edges that a cut
/// may select and that separate.
pub proof fn lemma_cheapest_side_is_cheapest_cut(
    edges: Seq<Edge>,
    side: Seq<bool>,
    sink: int,
    other: spec_fn(int) -> bool,
)
    requires
        is_min_side(edges, side, 0, sink),
        sink >= 0,
        edges_ok(edges, sink),
        separates(edges, other, 0, sink),
        forall|i: int| 0 <= i < edges.len() && #[trigger] other(i) ==> edges[i].cuttable(),
    ensures
        cost_of(edges, leaving(edges, side), edges.len() as int) <= cost_of(
            edges,
            other,
            edges.len() as int,
        ),
{
    let os = side_of(edges, other, 0, sink);
    assert(can_part(edges, os, 0, sink)) by {
        assert forall|k: int| #[trigger] leaves(edges, os, k) implies edges[k].cuttable() by {
            assert(other(k));
        }
    }
    lemma_cost_bounds(edges, leaving(edges, os), other, edges.len() as int);
}

/// The side of the source that is cut round is within every other side that is
/// as cheap to cut round: no cut as cheap is nearer to the source.
pub proof fn lemma_cut_is_nearest_to_source(
    edges: Seq<Edge>,
    side: Seq<bool>,
    other: Seq<bool>,
    sink: int,
    v: int,
)
    requires
        is_min_side(edges, side, 0, sink),
        0 <= sink,
        other[0],
        !other[sink],
        forall|i: int|
            0 <= i < edges.len() && other[(#[trigger] edges[i]).from as int]
                && !other[edges[i].to as int] ==> edges[i].cuttable(),
        cost_of(
            edges,
            |i: int|
                0 <= i < edges.len() && other[edges[i].from as int] && !other[edges[i].to as int],
            edges.len() as int,
        ) == cost_of(edges, leaving(edges, side), edges.len() as int),
        0 <= v < side.len(),
        side[v],
    ensures
        other[v],
{
    let f = |i: int|
        0 <= i < edges.len() && other[edges[i].from as int] && !other[edges[i].to as int];
    assert forall|i: int| #[trigger] leaves(edges, other, i) implies edges[i].cuttable() by {
        assert(other[edges[i].from as int]);
    }
    assert(can_part(edges, other, 0, sink));
    lemma_cost_same(edges, f, leaving(edges, other), edges.len() as int);
}

proof fn lemma_cost_same(
    edges: Seq<Edge>,
    a: spec_fn(int) -> bool,
    b: spec_fn(int) -> bool,
    k: int,
)
    requires
        0 <= k <= edges.len(),
        forall|i: int| 0 <= i < edges.len() ==> #[trigger] a(i) == b(i),
    ensures
        cost_of(edges, a, k) == cost_of(edges, b, k),
    decreases k,
{
    if k > 0 {
        lemma_cost_same(edges, a, b, k - 1);
        assert(a(k - 1) == b(k - 1));
    }
}

/// The edges of a list are those whose index it has, and a cut may select the
/// edges that can be cut.
pub proof fn lemma_picked_means(edges: Seq<Edge>, cut: Seq<u32>, i: int)
    ensures
        picked(cut)(i) <==> exists|k: int| 0 <= k < cut.len() && #[trigger] cut[k] == i,
        all_cuttable(edges)(i) <==> 0 <= i < edges.len() && edges[i].cuttable(),
        edges_ok(edges, i) <==> forall|k: int|
            0 <= k < edges.len() ==> (#[trigger] edges[k]).from <= i && edges[k].to <= i,
{
}

/// The edges out of a side lead from a node in it to one outside.
pub proof fn lemma_leaving_means(edges: Seq<Edge>, side: Seq<bool>, i: int)
    ensures
        leaving(edges, side)(i) <==> leaves(edges, side, i),
        leaves(edges, side, i) <==> 0 <= i < edges.len() && side[edges[i].from as int]
            && !side[edges[i].to as int],
{
}

} // verus!
