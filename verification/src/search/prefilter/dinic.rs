//! Maximum flow by level graphs and blocking flows.

use vstd::prelude::*;

verus! {

/// An arc: where it leaves, where it enters, and its capacity.
pub type Arc = (u32, u32, u64);

/// The most nodes that an arc can name.
pub const MAX_NODES: u64 = 0x1_0000_0000;

/// 1 where the condition holds, else 0.
spec fn one_if(c: bool) -> int {
    if c {
        1
    } else {
        0
    }
}

/// How many of the first `k` arcs' ends are at node `v`.
spec fn degree(arcs: Seq<Arc>, v: int, k: int) -> int
    decreases k,
{
    if k <= 0 {
        0
    } else {
        degree(arcs, v, k - 1) + one_if(arcs[k - 1].0 == v) + one_if(arcs[k - 1].1 == v)
    }
}

/// The ends at the nodes below `v`.
spec fn degrees(arcs: Seq<Arc>, v: int, k: int) -> int
    decreases v,
{
    if v <= 0 {
        0
    } else {
        degrees(arcs, v - 1, k) + degree(arcs, v - 1, k)
    }
}

proof fn lemma_degree_grows(arcs: Seq<Arc>, v: int, k: int, m: int)
    requires
        0 <= k <= m,
    ensures
        0 <= degree(arcs, v, k) <= degree(arcs, v, m),
        degree(arcs, v, k) <= 2 * k,
    decreases m,
{
    if k < m {
        lemma_degree_grows(arcs, v, k, m - 1);
    } else if k > 0 {
        lemma_degree_grows(arcs, v, k - 1, k - 1);
    }
}

proof fn lemma_degrees_step(arcs: Seq<Arc>, v: int, k: int)
    requires
        0 <= k < arcs.len(),
        0 <= v,
    ensures
        degrees(arcs, v, k + 1) == degrees(arcs, v, k) + one_if(arcs[k].0 < v) + one_if(
            arcs[k].1 < v,
        ),
    decreases v,
{
    if v > 0 {
        lemma_degrees_step(arcs, v - 1, k);
    }
}

/// All ends together.
proof fn lemma_degrees_total(arcs: Seq<Arc>, n: int, k: int)
    requires
        0 <= k <= arcs.len(),
        0 <= n,
        forall|i: int| 0 <= i < arcs.len() ==> (#[trigger] arcs[i]).0 < n && arcs[i].1 < n,
    ensures
        degrees(arcs, n, k) == 2 * k,
    decreases k,
{
    if k > 0 {
        lemma_degrees_total(arcs, n, k - 1);
        lemma_degrees_step(arcs, n, k - 1);
        assert(arcs[k - 1].0 < n);
    } else {
        lemma_degrees_none(arcs, n);
    }
}

proof fn lemma_degrees_none(arcs: Seq<Arc>, v: int)
    ensures
        degrees(arcs, v, 0) == 0,
    decreases v,
{
    if v > 0 {
        lemma_degrees_none(arcs, v - 1);
    }
}

proof fn lemma_degrees_grow(arcs: Seq<Arc>, v: int, w: int, k: int)
    requires
        0 <= v <= w,
        0 <= k,
    ensures
        0 <= degrees(arcs, v, k) <= degrees(arcs, w, k),
    decreases w,
{
    if v < w {
        lemma_degrees_grow(arcs, v, w - 1, k);
        lemma_degree_grows(arcs, w - 1, k, k);
    } else if v > 0 {
        lemma_degrees_grow(arcs, v - 1, v - 1, k);
        lemma_degree_grows(arcs, v - 1, k, k);
    }
}

/// The node whose row holds slot `a`.
proof fn row_of(arcs: Seq<Arc>, n: int, k: int, a: int) -> (v: int)
    requires
        0 <= n,
        0 <= k,
        0 <= a < degrees(arcs, n, k),
    ensures
        0 <= v < n,
        degrees(arcs, v, k) <= a < degrees(arcs, v + 1, k),
    decreases n,
{
    if a >= degrees(arcs, n - 1, k) {
        n - 1
    } else {
        row_of(arcs, n - 1, k, a)
    }
}

/// The residual graph, with the slots of each node's arcs back to back.
struct Dinic {
    /// Row starts: node `v` owns the slots `head[v]..head[v + 1]`.
    head: Vec<u32>,
    /// Endpoint of each slot's arc.
    to: Vec<u32>,
    /// Each slot's twin, so pushing flow can credit the residual back.
    twin: Vec<u32>,
    /// Residual capacity of each slot.
    cap: Vec<u64>,
    /// Distance from the source, or -1 for nodes outside the level graph.
    level: Vec<i64>,
    /// The first slot of each node not yet ruled out this phase.
    next: Vec<u32>,
    arcs: Ghost<Seq<Arc>>,
    /// The arc that each slot stands for, and whether forwards.
    owner: Ghost<Seq<(int, bool)>>,
    /// The forward slot of each arc.
    fwd: Ghost<Seq<int>>,
    /// The backward slot of each arc.
    rev: Ghost<Seq<int>>,
}

/// Arcs between nodes below `n`, few enough to number their slots.
pub open spec fn arcs_ok(arcs: Seq<Arc>, n: int) -> bool {
    &&& 2 * arcs.len() <= u32::MAX
    &&& forall|i: int| 0 <= i < arcs.len() ==> (#[trigger] arcs[i]).0 < n && arcs[i].1 < n
}

spec fn tail_of(arcs: Seq<Arc>, o: (int, bool)) -> int {
    if o.1 {
        arcs[o.0].0 as int
    } else {
        arcs[o.0].1 as int
    }
}

spec fn head_of(arcs: Seq<Arc>, o: (int, bool)) -> int {
    if o.1 {
        arcs[o.0].1 as int
    } else {
        arcs[o.0].0 as int
    }
}

/// Slot `a` is that of its owner.
spec fn slot_ok(
    arcs: Seq<Arc>,
    fwd: Seq<int>,
    rev: Seq<int>,
    o: (int, bool),
    a: int,
    to: u32,
    twin: u32,
) -> bool {
    &&& 0 <= o.0 < fwd.len()
    &&& to == head_of(arcs, o)
    &&& if o.1 {
        a == fwd[o.0] && twin == rev[o.0]
    } else {
        a == rev[o.0] && twin == fwd[o.0]
    }
}

impl Dinic {
    spec fn shape(&self) -> bool {
        let n = self.level@.len();
        let m = self.arcs@.len();
        &&& n <= MAX_NODES
        &&& arcs_ok(self.arcs@, n as int)
        &&& self.head@.len() == n + 1
        &&& self.next@.len() == n
        &&& self.to@.len() == 2 * m
        &&& self.twin@.len() == 2 * m
        &&& self.cap@.len() == 2 * m
        &&& self.owner@.len() == 2 * m
        &&& self.fwd@.len() == m
        &&& self.rev@.len() == m
        &&& forall|v: int| 0 <= v < n ==> #[trigger] self.row(v)
        &&& forall|a: int| 0 <= a < 2 * m ==> #[trigger] self.slot(a)
        &&& forall|i: int| 0 <= i < m ==> #[trigger] self.edge(i)
        &&& forall|v: int, a: int|
            0 <= v < n && #[trigger] self.in_row(v, a) ==> self.tail(a) == v
    }

    spec fn row(&self, v: int) -> bool {
        self.head@[v] <= self.head@[v + 1] <= self.to@.len()
    }

    spec fn in_row(&self, v: int, a: int) -> bool {
        self.head@[v] <= a < self.head@[v + 1]
    }

    spec fn tail(&self, a: int) -> int {
        tail_of(self.arcs@, self.owner@[a])
    }

    spec fn slot(&self, a: int) -> bool {
        &&& slot_ok(
            self.arcs@,
            self.fwd@,
            self.rev@,
            self.owner@[a],
            a,
            self.to@[a],
            self.twin@[a],
        )
        &&& self.in_row(self.tail(a), a)
    }

    spec fn edge(&self, i: int) -> bool {
        &&& 0 <= self.fwd@[i] < self.owner@.len()
        &&& 0 <= self.rev@[i] < self.owner@.len()
        &&& self.owner@[self.fwd@[i]] == (i, true)
        &&& self.owner@[self.rev@[i]] == (i, false)
    }

    /// What an arc has left and what it carries make up its capacity.
    spec fn caps_ok(&self) -> bool {
        forall|i: int|
            0 <= i < self.arcs@.len() ==> self.cap@[#[trigger] self.fwd@[i]]
                + self.cap@[self.rev@[i]] == self.arcs@[i].2
    }

    /// What each arc carries.
    spec fn flow(&self) -> Seq<int> {
        flow_of(self.cap@, self.rev@)
    }

    /// What is carried out of any side of the nodes is what is sent from `s`
    /// to `t` across it.
    spec fn conserved(&self, s: int, t: int, total: int) -> bool {
        forall|side: Seq<bool>| #[trigger] self.out_of(side) == crossing(side, s, t, total)
    }

    /// What the arcs carry out of a side.
    spec fn out_of(&self, side: Seq<bool>) -> int {
        net(self.arcs@, self.flow(), side, self.arcs@.len() as int)
    }

    /// As `conserved`, with `amount` on its way from `s` at `node`.
    spec fn underway(&self, s: int, t: int, total: int, node: int, amount: int) -> bool {
        forall|side: Seq<bool>| #[trigger]
            self.out_of(side) == crossing(side, s, t, total) + crossing(side, s, node, amount)
    }

    /// Nothing but the levels and cursors differs.
    spec fn same_graph(&self, o: &Dinic) -> bool {
        &&& self.head@ == o.head@
        &&& self.to@ == o.to@
        &&& self.twin@ == o.twin@
        &&& self.arcs@ == o.arcs@
        &&& self.owner@ == o.owner@
        &&& self.fwd@ == o.fwd@
        &&& self.rev@ == o.rev@
        &&& self.level@.len() == o.level@.len()
    }

    /// Slot `a` leads one level up.
    spec fn rises(&self, level: Seq<i64>, a: int) -> bool {
        level[self.to@[a] as int] == level[self.tail(a)] + 1
    }

    /// The levels are those of a search from `source` over open slots.
    spec fn layered(&self, source: int) -> bool {
        let level = self.level@;
        &&& forall|v: int|
            0 <= v < level.len() ==> -1 <= #[trigger] level[v] < level.len() && (level[v] == 0
                <==> v == source)
        &&& forall|v: int|
            0 <= v < level.len() && #[trigger] level[v] > 0 ==> exists|a: int|
                0 <= a < self.to@.len() && #[trigger] self.to@[a] == v && self.cap@[a] > 0
                    && self.rises(level, a)
    }

    /// No open slot leads out of the level graph.
    spec fn closed_levels(&self) -> bool {
        forall|a: int|
            0 <= a < self.to@.len() && #[trigger] self.cap@[a] > 0 && self.level@[self.tail(a)] >= 0
                ==> self.level@[self.to@[a] as int] >= 0
    }

    /// The residual graph of `arcs` over `num_nodes` nodes, with no flow sent.
    /// Every arc gets a twin of capacity zero.
    #[verifier::spinoff_prover]
    #[verifier::rlimit(60)]
    fn new(num_nodes: usize, arcs: &[Arc]) -> (r: Dinic)
        requires
            arcs_ok(arcs@, num_nodes as int),
            num_nodes < usize::MAX,
            num_nodes <= MAX_NODES,
        ensures
            r.shape(),
            r.caps_ok(),
            r.arcs@ == arcs@,
            r.level@.len() == num_nodes,
            forall|i: int|
                0 <= i < arcs@.len() ==> r.cap@[#[trigger] r.fwd@[i]] == arcs@[i].2
                    && r.cap@[r.rev@[i]] == 0,
    {
        let ghost q = arcs@;
        let ghost n = num_nodes as int;
        let m: usize = arcs.len();
        let ghost mm = m as int;
        let mut head: Vec<u32> = vec![0u32; num_nodes + 1];
        let mut k: usize = 0;
        while k < m
            invariant
                q == arcs@,
                n == num_nodes,
                m == q.len(),
                arcs_ok(q, n),
                k <= m,
                head@.len() == n + 1,
                head@[0] == 0,
                forall|v: int| 0 <= v < n ==> #[trigger] head@[v + 1] == degree(q, v, k as int),
            decreases m - k,
        {
            let arc: Arc = arcs[k];
            let from: usize = arc.0 as usize;
            let to: usize = arc.1 as usize;
            proof {
                assert(q[k as int].0 < n && q[k as int].1 < n);
                assert(head@[from + 1] == degree(q, from as int, k as int));
                assert(head@[to + 1] == degree(q, to as int, k as int));
                lemma_degree_grows(q, from as int, k as int, k as int);
                lemma_degree_grows(q, to as int, k as int, k as int);
            }
            let ghost before = head@;
            head.set(from + 1, head[from + 1] + 1);
            head.set(to + 1, head[to + 1] + 1);
            proof {
                assert forall|v: int| 0 <= v < n implies #[trigger] head@[v + 1] == degree(
                    q,
                    v,
                    k + 1,
                ) by {
                    assert(before[v + 1] == degree(q, v, k as int));
                }
            }
            k = k + 1;
        }
        let mut v: usize = 0;
        proof {
            lemma_degrees_total(q, n, mm);
            assert forall|u: int| 0 < u <= n implies #[trigger] head@[u] == degree(q, u - 1, mm) by {
                assert(head@[(u - 1) + 1] == degree(q, u - 1, mm));
            }
        }
        while v < num_nodes
            invariant
                n == num_nodes,
                num_nodes < usize::MAX,
                mm == q.len(),
                v <= n,
                2 * mm <= u32::MAX,
                degrees(q, n, mm) == 2 * mm,
                head@.len() == n + 1,
                forall|u: int| 0 <= u <= v ==> #[trigger] head@[u] == degrees(q, u, mm),
                forall|u: int| v < u <= n ==> #[trigger] head@[u] == degree(q, u - 1, mm),
            decreases n - v,
        {
            proof {
                lemma_degrees_grow(q, v + 1, n, mm);
                assert(head@[v as int] == degrees(q, v as int, mm));
                assert(head@[v + 1] == degree(q, v as int, mm));
            }
            head.set(v + 1, head[v + 1] + head[v]);
            v = v + 1;
        }

        let slots: usize = m * 2;
        let mut cursor: Vec<u32> = head.clone();
        let mut edge_to: Vec<u32> = vec![0u32; slots];
        let mut twin: Vec<u32> = vec![0u32; slots];
        let mut cap: Vec<u64> = vec![0u64; slots];
        let ghost mut owner: Seq<(int, bool)> = Seq::new(slots as nat, |a: int| (-1int, false));
        let ghost mut fwds: Seq<int> = Seq::empty();
        let ghost mut revs: Seq<int> = Seq::empty();
        let mut k: usize = 0;
        proof {
            assert(cursor@ =~= head@);
        }
        while k < m
            invariant
                q == arcs@,
                n == num_nodes,
                m == q.len(),
                mm == m,
                slots == 2 * mm,
                arcs_ok(q, n),
                degrees(q, n, mm) == 2 * mm,
                k <= m,
                head@.len() == n + 1,
                cursor@.len() == n + 1,
                forall|u: int| 0 <= u <= n ==> #[trigger] head@[u] == degrees(q, u, mm),
                forall|u: int|
                    0 <= u < n ==> #[trigger] cursor@[u] == head@[u] + degree(q, u, k as int),
                edge_to@.len() == slots,
                twin@.len() == slots,
                cap@.len() == slots,
                owner.len() == slots,
                fwds.len() == k,
                revs.len() == k,
                forall|a: int|
                    0 <= a < slots && (#[trigger] owner[a]).0 >= 0 ==> slot_ok(
                        q,
                        fwds,
                        revs,
                        owner[a],
                        a,
                        edge_to@[a],
                        twin@[a],
                    ) && head@[tail_of(q, owner[a])] <= a < cursor@[tail_of(q, owner[a])],
                forall|u: int, a: int|
                    0 <= u < n && #[trigger] head@[u] <= a < cursor@[u] ==> 0 <= (
                    #[trigger] owner[a]).0 && tail_of(q, owner[a]) == u,
                forall|i: int|
                    0 <= i < k ==> 0 <= #[trigger] fwds[i] < slots && owner[fwds[i]] == (i, true)
                        && cap@[fwds[i]] == q[i].2,
                forall|i: int|
                    0 <= i < k ==> 0 <= #[trigger] revs[i] < slots && owner[revs[i]] == (i, false)
                        && cap@[revs[i]] == 0,
                forall|a: int| 0 <= a < slots && owner[a].0 < 0 ==> #[trigger] cap@[a] == 0,
            decreases m - k,
        {
            let arc: Arc = arcs[k];
            let from: usize = arc.0 as usize;
            let to: usize = arc.1 as usize;
            let ghost o1 = owner;
            let ghost c1 = cursor@;
            proof {
                assert(q[k as int].0 < n && q[k as int].1 < n);
                lemma_degree_grows(q, from as int, k + 1, mm);
                lemma_degree_grows(q, to as int, k + 1, mm);
                lemma_degree_grows(q, from as int, k as int, k + 1);
                lemma_degree_grows(q, to as int, k as int, k + 1);
                assert(head@[from as int] == degrees(q, from as int, mm));
                assert(head@[to as int] == degrees(q, to as int, mm));
                lemma_degrees_grow(q, from + 1, n, mm);
                lemma_degrees_grow(q, to + 1, n, mm);
                assert(cursor@[from as int] == head@[from as int] + degree(
                    q,
                    from as int,
                    k as int,
                ));
                assert(cursor@[to as int] == head@[to as int] + degree(q, to as int, k as int));
            }
            let f: u32 = cursor[from];
            cursor.set(from, f + 1);
            let r: u32 = cursor[to];
            cursor.set(to, r + 1);
            proof {
                // Neither slot is taken.
                assert forall|u: int| 0 <= u < n implies #[trigger] cursor@[u] == head@[u] + degree(
                    q,
                    u,
                    k + 1,
                ) by {
                    assert(c1[u] == head@[u] + degree(q, u, k as int));
                }
                if o1[f as int].0 >= 0 {
                    let a = f as int;
                    assert(slot_ok(q, fwds, revs, o1[a], a, edge_to@[a], twin@[a]));
                    assert forall|u: int| 0 <= u < n implies #[trigger] c1[u] <= head@[u + 1] by {
                        assert(head@[u + 1] == degrees(q, u + 1, mm));
                        lemma_degree_grows(q, u, k as int, mm);
                    }
                    lemma_free(q, mm, o1[f as int], head@, c1, f as int, from as int);
                }
                if o1[r as int].0 >= 0 {
                    let a = r as int;
                    assert(slot_ok(q, fwds, revs, o1[a], a, edge_to@[a], twin@[a]));
                    assert forall|u: int| 0 <= u < n implies #[trigger] c1[u] <= head@[u + 1] by {
                        assert(head@[u + 1] == degrees(q, u + 1, mm));
                        lemma_degree_grows(q, u, k as int, mm);
                    }
                    lemma_free(q, mm, o1[r as int], head@, c1, r as int, to as int);
                }
                if f == r && from != to {
                    if from < to {
                        lemma_degrees_grow(q, from + 1, to as int, mm);
                    } else {
                        lemma_degrees_grow(q, to + 1, from as int, mm);
                    }
                }
                assert(f != r);
                owner = owner.update(f as int, (k as int, true)).update(
                    r as int,
                    (k as int, false),
                );
            }
            let ghost to1 = edge_to@;
            let ghost tw1 = twin@;
            let ghost cap1 = cap@;
            let ghost fw1 = fwds;
            let ghost rv1 = revs;
            edge_to.set(f as usize, arc.1);
            twin.set(f as usize, r);
            cap.set(f as usize, arc.2);
            edge_to.set(r as usize, arc.0);
            twin.set(r as usize, f);
            proof {
                fwds = fwds.push(f as int);
                revs = revs.push(r as int);
                assert forall|a: int| 0 <= a < slots && (#[trigger] owner[a]).0 >= 0 implies slot_ok(
                    q,
                    fwds,
                    revs,
                    owner[a],
                    a,
                    edge_to@[a],
                    twin@[a],
                ) && head@[tail_of(q, owner[a])] <= a < cursor@[tail_of(q, owner[a])] by {
                    if a != f && a != r {
                        assert(owner[a] == o1[a]);
                        assert(slot_ok(q, fw1, rv1, o1[a], a, to1[a], tw1[a]));
                        let i = o1[a].0;
                        assert(fwds[i] == fw1[i]);
                        assert(revs[i] == rv1[i]);
                        let u = tail_of(q, o1[a]);
                        assert(0 <= u < n) by {
                            assert(q[i].0 < n && q[i].1 < n);
                        }
                        assert(cursor@[u] >= c1[u]);
                    }
                }
                assert forall|u: int, a: int|
                    0 <= u < n && #[trigger] head@[u] <= a < cursor@[u] implies 0 <= (
                #[trigger] owner[a]).0 && tail_of(q, owner[a]) == u by {
                    assert(head@[u] == degrees(q, u, mm));
                    lemma_degrees_grow(q, u, n, mm);
                    lemma_degree_grows(q, u, k + 1, mm);
                    lemma_degrees_grow(q, u + 1, n, mm);
                    if a != f && a != r {
                        assert(owner[a] == o1[a]);
                        assert(a < c1[u]);
                        assert(0 <= o1[a].0);
                    } else {
                        let w = if a == f {
                            from as int
                        } else {
                            to as int
                        };
                        if u < w {
                            lemma_degrees_grow(q, u + 1, w, mm);
                        } else if w < u {
                            lemma_degrees_grow(q, w + 1, u, mm);
                            lemma_degree_grows(q, w, k + 1, mm);
                        }
                        assert(u == w);
                    }
                }
                assert forall|i: int| 0 <= i < k + 1 implies 0 <= #[trigger] fwds[i] < slots
                    && owner[fwds[i]] == (i, true) && cap@[fwds[i]] == q[i].2 by {
                    if i < k {
                        assert(fwds[i] == fw1[i]);
                        assert(o1[fw1[i]] == (i, true));
                    }
                }
                assert forall|i: int| 0 <= i < k + 1 implies 0 <= #[trigger] revs[i] < slots
                    && owner[revs[i]] == (i, false) && cap@[revs[i]] == 0 by {
                    if i < k {
                        assert(revs[i] == rv1[i]);
                        assert(o1[rv1[i]] == (i, false));
                    } else {
                        assert(cap1[r as int] == 0);
                    }
                }
                assert forall|a: int| 0 <= a < slots && owner[a].0 < 0 implies #[trigger] cap@[a]
                    == 0 by {
                    assert(owner[a] == o1[a]);
                    assert(cap1[a] == 0);
                }
            }
            k = k + 1;
        }
        let level: Vec<i64> = vec![-1i64; num_nodes];
        let next: Vec<u32> = vec![0u32; num_nodes];
        let r = Dinic {
            head,
            to: edge_to,
            twin,
            cap,
            level,
            next,
            arcs: Ghost(q),
            owner: Ghost(owner),
            fwd: Ghost(fwds),
            rev: Ghost(revs),
        };
        proof {
            assert forall|u: int| 0 <= u < n implies #[trigger] r.row(u) && cursor@[u]
                == r.head@[u + 1] by {
                assert(r.head@[u] == degrees(q, u, mm));
                assert(r.head@[u + 1] == degrees(q, u + 1, mm));
                lemma_degrees_grow(q, u, u + 1, mm);
                lemma_degrees_grow(q, u + 1, n, mm);
                assert(cursor@[u] == r.head@[u] + degree(q, u, mm));
            }
            assert forall|a: int| 0 <= a < 2 * mm implies #[trigger] r.slot(a) by {
                let u = row_of(q, n, mm, a);
                assert(r.head@[u] == degrees(q, u, mm));
                assert(r.head@[u + 1] == degrees(q, u + 1, mm));
                assert(r.row(u));
                assert(r.head@[u] <= a < cursor@[u]);
                assert(owner[a].0 >= 0);
                assert(slot_ok(q, fwds, revs, owner[a], a, r.to@[a], r.twin@[a]));
            }
            assert forall|i: int| 0 <= i < mm implies #[trigger] r.edge(i) by {
                assert(owner[fwds[i]] == (i, true));
                assert(owner[revs[i]] == (i, false));
            }
            assert forall|u: int, a: int|
                0 <= u < n && #[trigger] r.in_row(u, a) implies r.tail(a) == u by {
                assert(r.row(u));
                assert(r.head@[u] <= a < cursor@[u]);
                assert(owner[a].0 >= 0);
            }
            assert forall|i: int|
                0 <= i < q.len() implies r.cap@[#[trigger] r.fwd@[i]] == q[i].2
                && r.cap@[r.rev@[i]] == 0 by {
                assert(owner[fwds[i]] == (i, true));
                assert(owner[revs[i]] == (i, false));
            }
        }
        r
    }
}

spec fn flow_of(cap: Seq<u64>, rev: Seq<int>) -> Seq<int> {
    Seq::new(rev.len(), |i: int| cap[rev[i]] as int)
}

/// What `f` sent from `u` to `v` carries out of a side.
pub open spec fn crossing(side: Seq<bool>, u: int, v: int, f: int) -> int {
    if side[u] && !side[v] {
        f
    } else if !side[u] && side[v] {
        -f
    } else {
        0
    }
}

/// What the first `k` arcs carry out of a side.
spec fn net(arcs: Seq<Arc>, flow: Seq<int>, side: Seq<bool>, k: int) -> int
    decreases k,
{
    if k <= 0 {
        0
    } else {
        net(arcs, flow, side, k - 1) + crossing(
            side,
            arcs[k - 1].0 as int,
            arcs[k - 1].1 as int,
            flow[k - 1],
        )
    }
}

/// What the first `k` arcs can carry out of a side.
pub open spec fn out_capacity(arcs: Seq<Arc>, side: Seq<bool>, k: int) -> int
    decreases k,
{
    if k <= 0 {
        0
    } else {
        out_capacity(arcs, side, k - 1) + if side[arcs[k - 1].0 as int]
            && !side[arcs[k - 1].1 as int] {
            arcs[k - 1].2 as int
        } else {
            0
        }
    }
}

proof fn lemma_net_update(
    arcs: Seq<Arc>,
    flow: Seq<int>,
    side: Seq<bool>,
    k: int,
    i: int,
    f: int,
)
    requires
        0 <= i < flow.len(),
        0 <= k <= flow.len(),
        flow.len() == arcs.len(),
    ensures
        net(arcs, flow.update(i, f), side, k) == net(arcs, flow, side, k) + if i < k {
            crossing(side, arcs[i].0 as int, arcs[i].1 as int, f - flow[i])
        } else {
            0
        },
    decreases k,
{
    if k > 0 {
        lemma_net_update(arcs, flow, side, k - 1, i, f);
    }
}

proof fn lemma_net_zero(arcs: Seq<Arc>, flow: Seq<int>, side: Seq<bool>, k: int)
    requires
        0 <= k <= flow.len(),
        forall|i: int| 0 <= i < flow.len() ==> #[trigger] flow[i] == 0,
    ensures
        net(arcs, flow, side, k) == 0,
    decreases k,
{
    if k > 0 {
        lemma_net_zero(arcs, flow, side, k - 1);
    }
}

/// No more is carried out of a side than can be.
proof fn lemma_net_bound(arcs: Seq<Arc>, flow: Seq<int>, side: Seq<bool>, k: int)
    requires
        0 <= k <= flow.len(),
        flow.len() == arcs.len(),
        forall|i: int| 0 <= i < flow.len() ==> 0 <= #[trigger] flow[i] <= arcs[i].2,
    ensures
        net(arcs, flow, side, k) <= out_capacity(arcs, side, k),
    decreases k,
{
    if k > 0 {
        lemma_net_bound(arcs, flow, side, k - 1);
        assert(0 <= flow[k - 1] <= arcs[k - 1].2);
    }
}

/// A side that every arc out of is full, and every arc into empty.
proof fn lemma_net_full(arcs: Seq<Arc>, flow: Seq<int>, side: Seq<bool>, k: int)
    requires
        0 <= k <= flow.len(),
        flow.len() == arcs.len(),
        forall|i: int|
            0 <= i < flow.len() ==> {
                &&& side[arcs[i].0 as int] && !side[arcs[i].1 as int] ==> #[trigger] flow[i]
                    == arcs[i].2
                &&& !side[arcs[i].0 as int] && side[arcs[i].1 as int] ==> flow[i] == 0
            },
    ensures
        net(arcs, flow, side, k) == out_capacity(arcs, side, k),
    decreases k,
{
    if k > 0 {
        lemma_net_full(arcs, flow, side, k - 1);
        assert(flow[k - 1] == flow[k - 1]);
    }
}

/// How many nodes are in the level graph.
spec fn alive(level: Seq<i64>) -> int
    decreases level.len(),
{
    if level.len() == 0 {
        0
    } else {
        alive(level.drop_last()) + one_if(level.last() >= 0)
    }
}

proof fn lemma_alive_bound(level: Seq<i64>)
    ensures
        0 <= alive(level) <= level.len(),
    decreases level.len(),
{
    if level.len() > 0 {
        lemma_alive_bound(level.drop_last());
    }
}

proof fn lemma_alive_update(level: Seq<i64>, v: int, l: i64)
    requires
        0 <= v < level.len(),
    ensures
        alive(level.update(v, l)) == alive(level) + one_if(l >= 0) - one_if(level[v] >= 0),
    decreases level.len(),
{
    let u = level.update(v, l);
    if v == level.len() - 1 {
        assert(u.drop_last() =~= level.drop_last());
    } else {
        assert(u.drop_last() =~= level.drop_last().update(v, l));
        lemma_alive_update(level.drop_last(), v, l);
    }
}

proof fn lemma_alive_none(level: Seq<i64>)
    requires
        forall|v: int| 0 <= v < level.len() ==> #[trigger] level[v] < 0,
    ensures
        alive(level) == 0,
    decreases level.len(),
{
    if level.len() > 0 {
        lemma_alive_none(level.drop_last());
    }
}

impl Dinic {
    /// Layers the residual graph from `source`, and tells whether `sink` is
    /// still reached.
    #[verifier::spinoff_prover]
    #[verifier::rlimit(60)]
    fn build_levels(&mut self, source: usize, sink: usize) -> (r: bool)
        requires
            old(self).shape(),
            source < old(self).level@.len(),
            sink < old(self).level@.len(),
        ensures
            final(self).shape(),
            final(self).same_graph(old(self)),
            final(self).cap@ == old(self).cap@,
            final(self).layered(source as int),
            final(self).closed_levels(),
            r == (final(self).level@[sink as int] >= 0),
    {
        let n: usize = self.level.len();
        let mut level: Vec<i64> = vec![-1i64; n];
        proof {
            lemma_alive_none(level@);
            lemma_alive_update(level@, source as int, 0);
        }
        level.set(source, 0);
        let mut queue: Vec<usize> = Vec::new();
        queue.push(source);
        let mut at: usize = 0;
        proof {
            lemma_alive_bound(level@);
            assert(queue@[0] == source);
        }
        while at < queue.len()
            invariant
                self.shape(),
                self == old(self),
                n == self.level@.len(),
                source < n,
                level@.len() == n,
                at <= queue@.len() <= n,
                alive(level@) == queue@.len(),
                forall|k: int|
                    0 <= k < queue@.len() ==> #[trigger] queue@[k] < n && 0 <= level@[queue@[k] as int]
                        <= k,
                forall|v: int| 0 <= v < n ==> -1 <= #[trigger] level@[v] < n && (level@[v] == 0
                    <==> v == source),
                forall|v: int|
                    0 <= v < n && #[trigger] level@[v] > 0 ==> exists|a: int|
                        0 <= a < self.to@.len() && #[trigger] self.to@[a] == v && self.cap@[a] > 0
                            && self.rises(level@, a),
                forall|v: int|
                    0 <= v < n && #[trigger] level@[v] >= 0 ==> self.done(level@, v) || exists|k: int|
                        at <= k < queue@.len() && #[trigger] queue@[k] == v,
            decreases n - at,
        {
            let v: usize = queue[at];
            let begin: usize = self.head[v] as usize;
            let end: usize = self.head[v + 1] as usize;
            let mut arc: usize = begin;
            assert(self.row(v as int));
            while arc < end
                invariant
                    self.shape(),
                    self == old(self),
                    n == self.level@.len(),
                    source < n,
                    v < n,
                    begin == self.head@[v as int],
                    end == self.head@[v + 1],
                    begin <= arc <= end <= self.to@.len(),
                    level@.len() == n,
                    at < queue@.len() <= n,
                    queue@[at as int] == v,
                    alive(level@) == queue@.len(),
                    forall|k: int|
                        0 <= k < queue@.len() ==> #[trigger] queue@[k] < n && 0
                            <= level@[queue@[k] as int] <= k,
                    forall|u: int| 0 <= u < n ==> -1 <= #[trigger] level@[u] < n && (level@[u] == 0
                        <==> u == source),
                    forall|u: int|
                        0 <= u < n && #[trigger] level@[u] > 0 ==> exists|a: int|
                            0 <= a < self.to@.len() && #[trigger] self.to@[a] == u && self.cap@[a]
                                > 0 && self.rises(level@, a),
                    forall|u: int|
                        0 <= u < n && #[trigger] level@[u] >= 0 ==> u == v || self.done(level@, u)
                            || exists|k: int|
                            at < k < queue@.len() && #[trigger] queue@[k] == u,
                    forall|a: int|
                        begin <= a < arc && #[trigger] self.cap@[a] > 0
                            ==> level@[self.to@[a] as int] >= 0,
                decreases end - arc,
            {
                let to: usize = self.to[arc] as usize;
                proof {
                    assert(self.slot(arc as int));
                    assert(self.in_row(v as int, arc as int));
                    let i = self.owner@[arc as int].0;
                    assert(self.arcs@[i].0 < n && self.arcs@[i].1 < n);
                }
                if self.cap[arc] > 0 && level[to] < 0 {
                    let ghost before = level@;
                    let ghost q0 = queue@;
                    proof {
                        lemma_alive_update(level@, to as int, (before[v as int] + 1) as i64);
                    }
                    let l: i64 = level[v] + 1;
                    level.set(to, l);
                    queue.push(to);
                    proof {
                        lemma_alive_bound(level@);
                        assert(level@[to as int] <= at + 1);
                        assert forall|a: int| begin <= a < arc && #[trigger] self.cap@[a] > 0 implies level@[self.to@[a] as int]
                            >= 0 by {
                            lemma_ends(self, a);
                            assert(before[self.to@[a] as int] >= 0);
                        }
                        assert forall|k: int| 0 <= k < queue@.len() implies #[trigger] queue@[k] < n
                            && 0 <= level@[queue@[k] as int] <= k by {
                            if k < q0.len() {
                                assert(before[q0[k] as int] >= 0);
                            }
                        }
                        assert forall|u: int| 0 <= u < n && #[trigger] level@[u] > 0 implies exists|
                            a: int,
                        |
                            0 <= a < self.to@.len() && #[trigger] self.to@[a] == u && self.cap@[a]
                                > 0 && self.rises(level@, a) by {
                            if u == to {
                                assert(self.to@[arc as int] == u && self.rises(level@, arc as int));
                            } else {
                                assert(before[u] > 0);
                                let a = choose|a: int|
                                    0 <= a < self.to@.len() && #[trigger] self.to@[a] == u
                                        && self.cap@[a] > 0 && self.rises(before, a);
                                assert(self.slot(a));
                                assert(self.rises(level@, a)) by {
                                    assert(before[self.tail(a)] >= 0);
                                }
                            }
                        }
                        assert forall|u: int| 0 <= u < n && #[trigger] level@[u] >= 0 implies u == v
                            || self.done(level@, u) || exists|k: int|
                            at < k < queue@.len() && #[trigger] queue@[k] == u by {
                            if u == to {
                                assert(queue@[q0.len() as int] == u);
                            } else {
                                assert(before[u] >= 0);
                                if u != v && !self.done(before, u) {
                                    let k = choose|k: int|
                                        at < k < q0.len() && #[trigger] q0[k] == u;
                                    assert(queue@[k] == u);
                                }
                                if self.done(before, u) {
                                    lemma_done(self, before, level@, u);
                                }
                            }
                        }
                    }
                }
                arc = arc + 1;
            }
            proof {
                assert(self.done(level@, v as int)) by {
                    assert forall|a: int|
                        0 <= a < self.to@.len() && self.tail(a) == v && #[trigger] self.cap@[a]
                            > 0 implies level@[self.to@[a] as int] >= 0 by {
                        assert(self.slot(a));
                    }
                }
                assert forall|u: int| 0 <= u < n && #[trigger] level@[u] >= 0 implies self.done(
                    level@,
                    u,
                ) || exists|k: int| at + 1 <= k < queue@.len() && #[trigger] queue@[k] == u by {}
            }
            at = at + 1;
        }
        self.level = level;
        proof {
            lemma_same_shape(old(self), self);
            assert forall|a: int|
                0 <= a < self.to@.len() && #[trigger] self.cap@[a] > 0 && self.level@[self.tail(a)]
                    >= 0 implies self.level@[self.to@[a] as int] >= 0 by {
                assert(self.slot(a));
                assert(old(self).slot(a));
                let i = self.owner@[a].0;
                assert(self.arcs@[i].0 < n && self.arcs@[i].1 < n);
                assert(old(self).done(level@, self.tail(a)));
            }
            assert forall|v: int| 0 <= v < n && #[trigger] self.level@[v] > 0 implies exists|a: int|
                0 <= a < self.to@.len() && #[trigger] self.to@[a] == v && self.cap@[a] > 0
                    && self.rises(self.level@, a) by {
                let a = choose|a: int|
                    0 <= a < self.to@.len() && #[trigger] self.to@[a] == v && self.cap@[a] > 0
                        && old(self).rises(level@, a);
                assert(self.rises(self.level@, a));
            }
        }
        self.level[sink] >= 0
    }

    /// Every open slot out of `v` leads to a node that was reached.
    spec fn done(&self, level: Seq<i64>, v: int) -> bool {
        forall|a: int|
            0 <= a < self.to@.len() && self.tail(a) == v && #[trigger] self.cap@[a] > 0
                ==> level[self.to@[a] as int] >= 0
    }
}

proof fn lemma_done(g: &Dinic, before: Seq<i64>, level: Seq<i64>, v: int)
    requires
        g.shape(),
        g.done(before, v),
        before.len() == g.level@.len(),
        forall|u: int| 0 <= u < before.len() && #[trigger] before[u] >= 0 ==> level[u] >= 0,
    ensures
        g.done(level, v),
{
    assert forall|a: int|
        0 <= a < g.to@.len() && g.tail(a) == v && #[trigger] g.cap@[a] > 0 implies level[g.to@[a] as int]
        >= 0 by {
        assert(g.slot(a));
        let i = g.owner@[a].0;
        assert(g.arcs@[i].0 < before.len() && g.arcs@[i].1 < before.len());
        assert(before[g.to@[a] as int] >= 0);
    }
}

/// The ends of a slot's arc are nodes.
proof fn lemma_ends(g: &Dinic, a: int)
    requires
        g.shape(),
        0 <= a < g.to@.len(),
    ensures
        0 <= g.tail(a) < g.level@.len(),
        g.to@[a] < g.level@.len(),
        g.twin@[a] < g.to@.len(),
        g.tail(g.twin@[a] as int) == g.to@[a],
        g.to@[g.twin@[a] as int] == g.tail(a),
        g.twin@[a] != a,
{
    assert(g.slot(a));
    let i = g.owner@[a].0;
    assert(g.arcs@[i].0 < g.level@.len() && g.arcs@[i].1 < g.level@.len());
    assert(g.edge(i));
    assert(g.slot(g.twin@[a] as int));
}

proof fn lemma_same_shape(o: &Dinic, g: &Dinic)
    requires
        o.shape(),
        g.same_graph(o),
        g.next@.len() == o.next@.len(),
        g.cap@.len() == o.cap@.len(),
    ensures
        g.shape(),
{
    assert forall|v: int, a: int|
        0 <= v < g.level@.len() && #[trigger] g.in_row(v, a) implies g.tail(a) == v by {
        assert(o.in_row(v, a));
    }
    assert forall|a: int| 0 <= a < g.to@.len() implies #[trigger] g.slot(a) by {
        assert(o.slot(a));
    }
    assert forall|i: int| 0 <= i < g.arcs@.len() implies #[trigger] g.edge(i) by {
        assert(o.edge(i));
    }
    assert forall|v: int| 0 <= v < g.level@.len() implies #[trigger] g.row(v) by {
        assert(o.row(v));
    }
}

/// `amount` more is carried from `u` to `v`.
spec fn pushed(before: &Dinic, after: &Dinic, u: int, v: int, amount: int) -> bool {
    forall|side: Seq<bool>| #[trigger]
        after.out_of(side) == before.out_of(side) + crossing(side, u, v, amount)
}

proof fn lemma_underway(
    before: &Dinic,
    after: &Dinic,
    s: int,
    t: int,
    total: int,
    u: int,
    v: int,
    amount: int,
)
    requires
        before.underway(s, t, total, u, amount),
        pushed(before, after, u, v, amount),
    ensures
        after.underway(s, t, total, v, amount),
{
    assert forall|side: Seq<bool>| #[trigger] after.out_of(side) == crossing(side, s, t, total)
        + crossing(side, s, v, amount) by {
        assert(before.out_of(side) == crossing(side, s, t, total) + crossing(side, s, u, amount));
    }
}

impl Dinic {
    /// Sends `amount` along a slot.
    fn push(&mut self, arc: usize, amount: u64)
        requires
            old(self).shape(),
            old(self).caps_ok(),
            arc < old(self).to@.len(),
            amount <= old(self).cap@[arc as int],
        ensures
            final(self).shape(),
            final(self).caps_ok(),
            final(self).same_graph(old(self)),
            final(self).level@ == old(self).level@,
            final(self).next@ == old(self).next@,
            final(self).cap@ == old(self).cap@.update(
                arc as int,
                (old(self).cap@[arc as int] - amount) as u64,
            ).update(
                old(self).twin@[arc as int] as int,
                (old(self).cap@[old(self).twin@[arc as int] as int] + amount) as u64,
            ),
            pushed(
                old(self),
                final(self),
                old(self).tail(arc as int),
                old(self).to@[arc as int] as int,
                amount as int,
            ),
    {
        let ghost a = arc as int;
        let ghost i = self.owner@[a].0;
        let ghost f = self.owner@[a].1;
        proof {
            lemma_ends(self, a);
            assert(self.slot(a));
            assert(self.edge(i));
            assert(self.cap@[self.fwd@[i]] + self.cap@[self.rev@[i]] == self.arcs@[i].2);
        }
        let back: usize = self.twin[arc] as usize;
        self.cap.set(arc, self.cap[arc] - amount);
        self.cap.set(back, self.cap[back] + amount);
        proof {
            lemma_same_shape(old(self), self);
            assert forall|k: int| 0 <= k < self.arcs@.len() implies self.cap@[#[trigger] self.fwd@[k]]
                + self.cap@[self.rev@[k]] == self.arcs@[k].2 by {
                assert(self.edge(k));
                assert(old(self).cap@[old(self).fwd@[k]] + old(self).cap@[old(self).rev@[k]]
                    == self.arcs@[k].2);
            }
            let before = old(self).flow();
            let d = if f {
                amount as int
            } else {
                -(amount as int)
            };
            assert(self.flow() =~= before.update(i, before[i] + d)) by {
                assert forall|k: int| 0 <= k < self.arcs@.len() implies #[trigger] self.flow()[k]
                    == before.update(i, before[i] + d)[k] by {
                    assert(self.edge(k));
                }
            }
            assert forall|side: Seq<bool>| #[trigger] self.out_of(side) == old(self).out_of(side)
                + crossing(side, old(self).tail(a), old(self).to@[a] as int, amount as int) by {
                lemma_net_update(
                    self.arcs@,
                    before,
                    side,
                    self.arcs@.len() as int,
                    i,
                    before[i] + d,
                );
            }
        }
    }

    /// A path of open slots from `source` to `node`, each one level up.
    spec fn trail(&self, level: Seq<i64>, path: Seq<u32>, source: int, node: int) -> bool {
        &&& node == if path.len() == 0 {
            source
        } else {
            self.to@[path.last() as int] as int
        }
        &&& forall|k: int|
            0 <= k < path.len() ==> (#[trigger] path[k]) < self.to@.len() && self.rises(
                level,
                path[k] as int,
            ) && level[self.tail(path[k] as int)] == k
        &&& forall|k: int| 0 <= k < path.len() ==> #[trigger] self.link(path, source, k)
    }

    /// The slot at `k` of a path leaves where the one before it ends.
    spec fn link(&self, path: Seq<u32>, source: int, k: int) -> bool {
        self.tail(path[k] as int) == if k == 0 {
            source
        } else {
            self.to@[path[k - 1] as int] as int
        }
    }

    spec fn open_path(&self, path: Seq<u32>) -> bool {
        forall|k: int| 0 <= k < path.len() ==> self.cap@[(#[trigger] path[k]) as int] > 0
    }

    /// The most that a path can carry.
    fn bottleneck(&self, path: &Vec<u32>) -> (r: u64)
        requires
            path@.len() > 0,
            forall|k: int| 0 <= k < path@.len() ==> (#[trigger] path@[k]) < self.cap@.len(),
        ensures
            forall|k: int| 0 <= k < path@.len() ==> r <= self.cap@[(#[trigger] path@[k]) as int],
            exists|k: int| 0 <= k < path@.len() && r == self.cap@[(#[trigger] path@[k]) as int],
    {
        let mut r: u64 = self.cap[path[0] as usize];
        let mut k: usize = 1;
        assert(r == self.cap@[path@[0] as int]);
        while k < path.len()
            invariant
                1 <= k <= path@.len(),
                forall|j: int| 0 <= j < path@.len() ==> (#[trigger] path@[j]) < self.cap@.len(),
                forall|j: int| 0 <= j < k ==> r <= self.cap@[(#[trigger] path@[j]) as int],
                exists|j: int| 0 <= j < k && r == self.cap@[(#[trigger] path@[j]) as int],
            decreases path@.len() - k,
        {
            let c: u64 = self.cap[path[k] as usize];
            if c < r {
                r = c;
                assert(r == self.cap@[path@[k as int] as int]);
            }
            k = k + 1;
        }
        r
    }

    /// Sends `amount` along a path from `source` to `sink`.
    fn augment(
        &mut self,
        path: &Vec<u32>,
        amount: u64,
        Ghost(source): Ghost<int>,
        Ghost(sink): Ghost<int>,
        Ghost(level): Ghost<Seq<i64>>,
        Ghost(total): Ghost<int>,
    )
        requires
            old(self).shape(),
            old(self).caps_ok(),
            old(self).trail(level, path@, source, sink),
            path@.len() > 0,
            old(self).conserved(source, sink, total),
            forall|k: int|
                0 <= k < path@.len() ==> amount <= old(self).cap@[(#[trigger] path@[k]) as int],
        ensures
            final(self).shape(),
            final(self).caps_ok(),
            final(self).same_graph(old(self)),
            final(self).level@ == old(self).level@,
            final(self).next@ == old(self).next@,
            final(self).conserved(source, sink, total + amount),
            forall|k: int|
                0 <= k < path@.len() ==> final(self).cap@[(#[trigger] path@[k]) as int] == old(
                    self,
                ).cap@[path@[k] as int] - amount,
            forall|a: int|
                0 <= a < old(self).to@.len() && old(self).rises(level, a)
                    ==> #[trigger] final(self).cap@[a] <= old(self).cap@[a],
    {
        let mut k: usize = 0;
        let ghost g0 = *self;
        let ghost p = path@;
        let ghost mut node: int = source;
        proof {
            assert(self.underway(source, sink, total, node, amount as int)) by {
                assert forall|side: Seq<bool>| #[trigger] self.out_of(side) == crossing(
                    side,
                    source,
                    sink,
                    total,
                ) + crossing(side, source, node, amount as int) by {}
            }
        }
        while k < path.len()
            invariant
                self.shape(),
                self.caps_ok(),
                self.same_graph(&g0),
                self.level@ == g0.level@,
                self.next@ == g0.next@,
                g0.shape(),
                p == path@,
                g0 == *old(self),
                g0.trail(level, p, source, sink),
                k <= p.len(),
                node == if k == 0 {
                    source
                } else {
                    g0.to@[p[k - 1] as int] as int
                },
                self.underway(source, sink, total, node, amount as int),
                forall|j: int|
                    0 <= j < p.len() ==> amount <= g0.cap@[(#[trigger] p[j]) as int],
                forall|j: int|
                    0 <= j < k ==> self.cap@[(#[trigger] p[j]) as int] == g0.cap@[p[j] as int]
                        - amount,
                forall|j: int|
                    k <= j < p.len() ==> self.cap@[(#[trigger] p[j]) as int] == g0.cap@[p[j] as int],
                forall|a: int|
                    0 <= a < g0.to@.len() && g0.rises(level, a) ==> #[trigger] self.cap@[a]
                        <= g0.cap@[a],
            decreases path@.len() - k,
        {
            let ghost before = *self;
            let arc: usize = path[k] as usize;
            proof {
                assert(p[k as int] == arc);
                lemma_ends(&before, arc as int);
            }
            self.push(arc, amount);
            proof {
                let tw = g0.twin@[arc as int] as int;
                assert(!g0.rises(level, tw)) by {
                    lemma_ends(&g0, arc as int);
                }
                assert(g0.link(p, source, k as int));
                assert(g0.tail(arc as int) == node);
                assert(before.tail(arc as int) == node);
                lemma_underway(
                    &before,
                    self,
                    source,
                    sink,
                    total,
                    node,
                    g0.to@[arc as int] as int,
                    amount as int,
                );
                node = g0.to@[arc as int] as int;
                assert forall|j: int| 0 <= j < p.len() && j != k implies (#[trigger] p[j]) != arc
                    && p[j] != tw by {}
                assert forall|a: int|
                    0 <= a < g0.to@.len() && g0.rises(level, a) implies #[trigger] self.cap@[a]
                    <= g0.cap@[a] by {
                    assert(before.cap@[a] <= g0.cap@[a]);
                }
            }
            k = k + 1;
        }
        proof {
            assert(node == sink);
            assert forall|side: Seq<bool>| #[trigger] self.out_of(side) == crossing(
                side,
                source,
                sink,
                total + amount,
            ) by {}
        }
    }

    spec fn cursor(&self, v: int) -> bool {
        self.head@[v] <= self.next@[v] <= self.head@[v + 1]
    }

    /// What a phase keeps: the levels only lose nodes, a lost node leads to
    /// lost nodes alone, and a slot that was passed by leads nowhere.
    spec fn phase(&self, level: Seq<i64>) -> bool {
        let n = level.len();
        &&& self.level@.len() == n
        &&& forall|v: int|
            0 <= v < n ==> (#[trigger] self.level@[v] == level[v] || self.level@[v] == -1)
        &&& forall|v: int| 0 <= v < n ==> #[trigger] self.cursor(v)
        &&& forall|a: int|
            0 <= a < self.to@.len() && level[self.tail(a)] >= 0 && self.level@[self.tail(a)] == -1
                && #[trigger] self.cap@[a] > 0 && self.rises(level, a)
                ==> self.level@[self.to@[a] as int] == -1
        &&& forall|a: int|
            0 <= a < self.to@.len() && a < self.next@[self.tail(a)] && level[self.tail(a)] >= 0
                && #[trigger] self.cap@[a] > 0 && self.rises(level, a)
                ==> self.level@[self.to@[a] as int] == -1
    }
}

/// Once every slot out of the source was passed by, no node above it is left.
proof fn lemma_exhausted(g: &Dinic, level: Seq<i64>, source: int, v: int)
    requires
        g.shape(),
        g.phase(level),
        0 <= source < level.len(),
        forall|u: int|
            0 <= u < level.len() ==> -1 <= #[trigger] level[u] && (level[u] == 0 <==> u == source),
        forall|u: int|
            0 <= u < level.len() && #[trigger] level[u] > 0 ==> exists|a: int|
                0 <= a < g.to@.len() && #[trigger] g.to@[a] == u && g.cap@[a] > 0 && g.rises(
                    level,
                    a,
                ),
        g.next@[source] == g.head@[source + 1],
        0 <= v < level.len(),
        level[v] > 0,
    ensures
        g.level@[v] == -1,
    decreases level[v],
{
    let a = choose|a: int|
        0 <= a < g.to@.len() && #[trigger] g.to@[a] == v && g.cap@[a] > 0 && g.rises(level, a);
    lemma_ends(g, a);
    assert(g.slot(a));
    let u = g.tail(a);
    if level[u] > 0 {
        lemma_exhausted(g, level, source, u);
    } else {
        assert(u == source);
    }
}

/// A phase goes on while the slots that lead up only fill.
proof fn lemma_phase_caps(o: &Dinic, g: &Dinic, level: Seq<i64>)
    requires
        o.phase(level),
        g.same_graph(o),
        g.level@ == o.level@,
        g.next@ == o.next@,
        forall|a: int|
            0 <= a < o.to@.len() && o.rises(level, a) ==> #[trigger] g.cap@[a] <= o.cap@[a],
    ensures
        g.phase(level),
{
    assert forall|a: int|
        0 <= a < g.to@.len() && #[trigger] g.cap@[a] > 0 && g.rises(level, a) implies o.cap@[a] > 0
        && o.rises(level, a) && o.tail(a) == g.tail(a) by {
        assert(o.rises(level, a));
    }
    assert forall|u: int| 0 <= u < level.len() implies #[trigger] g.cursor(u) by {
        assert(o.cursor(u));
    }
}

/// A phase goes on when a node is lost that all slots out of were passed by.
proof fn lemma_phase_dead(o: &Dinic, g: &Dinic, level: Seq<i64>, dead: int)
    requires
        o.shape(),
        o.phase(level),
        g.same_graph(o),
        0 <= dead < level.len(),
        g.level@ == o.level@.update(dead, -1i64),
        g.next@ == o.next@,
        g.cap@ == o.cap@,
        o.next@[dead] == o.head@[dead + 1],
    ensures
        g.phase(level),
{
    assert forall|a: int|
        0 <= a < g.to@.len() && level[g.tail(a)] >= 0 && g.level@[g.tail(a)] == -1
            && #[trigger] g.cap@[a] > 0 && g.rises(level, a) implies g.level@[g.to@[a] as int]
        == -1 by {
        assert(o.rises(level, a) && o.cap@[a] > 0);
        lemma_ends(o, a);
        if g.tail(a) == dead {
            assert(o.slot(a));
        }
    }
    assert forall|u: int| 0 <= u < level.len() implies #[trigger] g.cursor(u) by {
        assert(o.cursor(u));
    }
    assert forall|a: int|
        0 <= a < g.to@.len() && a < g.next@[g.tail(a)] && level[g.tail(a)] >= 0
            && #[trigger] g.cap@[a] > 0 && g.rises(level, a) implies g.level@[g.to@[a] as int]
        == -1 by {
        assert(o.rises(level, a) && o.cap@[a] > 0);
        lemma_ends(o, a);
    }
}

/// A phase goes on when a slot that leads nowhere is passed by.
proof fn lemma_phase_skip(o: &Dinic, g: &Dinic, level: Seq<i64>, node: int)
    requires
        o.shape(),
        o.phase(level),
        g.same_graph(o),
        0 <= node < level.len(),
        o.level@[node] == level[node],
        o.next@[node] < o.head@[node + 1],
        g.level@ == o.level@,
        g.next@ == o.next@.update(node, (o.next@[node] + 1) as u32),
        g.cap@ == o.cap@,
        !(o.cap@[o.next@[node] as int] > 0 && o.level@[o.to@[o.next@[node] as int] as int]
            == o.level@[node] + 1),
    ensures
        g.phase(level),
{
    assert forall|u: int| 0 <= u < level.len() implies #[trigger] g.cursor(u) by {
        assert(o.cursor(u));
    }
    assert forall|a: int|
        0 <= a < g.to@.len() && a < g.next@[g.tail(a)] && level[g.tail(a)] >= 0
            && #[trigger] g.cap@[a] > 0 && g.rises(level, a) implies g.level@[g.to@[a] as int]
        == -1 by {
        assert(o.rises(level, a) && o.cap@[a] > 0);
        lemma_ends(o, a);
        if a == o.next@[node] && g.tail(a) == node {
            assert(o.level@[o.to@[a] as int] == level[o.to@[a] as int] || o.level@[o.to@[a] as int]
                == -1);
        }
    }
    assert forall|a: int|
        0 <= a < g.to@.len() && level[g.tail(a)] >= 0 && g.level@[g.tail(a)] == -1
            && #[trigger] g.cap@[a] > 0 && g.rises(level, a) implies g.level@[g.to@[a] as int]
        == -1 by {
        assert(o.rises(level, a) && o.cap@[a] > 0);
    }
}

proof fn lemma_trail_same(
    o: &Dinic,
    g: &Dinic,
    level: Seq<i64>,
    path: Seq<u32>,
    source: int,
    node: int,
)
    requires
        o.trail(level, path, source, node),
        g.same_graph(o),
    ensures
        g.trail(level, path, source, node),
{
    assert forall|j: int| 0 <= j < path.len() implies #[trigger] g.link(path, source, j) by {
        assert(o.link(path, source, j));
    }
    assert forall|j: int| 0 <= j < path.len() implies (#[trigger] path[j]) < g.to@.len() && g.rises(
        level,
        path[j] as int,
    ) && level[g.tail(path[j] as int)] == j by {
        assert(o.rises(level, path[j] as int));
    }
}

proof fn lemma_trail_take(
    g: &Dinic,
    level: Seq<i64>,
    path: Seq<u32>,
    source: int,
    node: int,
    k: int,
)
    requires
        g.trail(level, path, source, node),
        0 <= k < path.len(),
    ensures
        g.trail(level, path.take(k), source, g.tail(path[k] as int)),
{
    let q = path.take(k);
    assert forall|j: int| 0 <= j < q.len() implies (#[trigger] q[j]) < g.to@.len() && g.rises(
        level,
        q[j] as int,
    ) && level[g.tail(q[j] as int)] == j by {
        assert(q[j] == path[j]);
    }
    assert forall|j: int| 0 <= j < q.len() implies #[trigger] g.link(q, source, j) by {
        assert(g.link(path, source, j));
    }
    assert(g.link(path, source, k));
}

proof fn lemma_trail_push(
    g: &Dinic,
    level: Seq<i64>,
    path: Seq<u32>,
    source: int,
    node: int,
    arc: u32,
)
    requires
        g.trail(level, path, source, node),
        arc < g.to@.len(),
        g.tail(arc as int) == node,
        g.rises(level, arc as int),
        level[node] == path.len(),
    ensures
        g.trail(level, path.push(arc), source, g.to@[arc as int] as int),
{
    let q = path.push(arc);
    assert forall|j: int| 0 <= j < q.len() implies (#[trigger] q[j]) < g.to@.len() && g.rises(
        level,
        q[j] as int,
    ) && level[g.tail(q[j] as int)] == j by {
        if j < path.len() {
            assert(q[j] == path[j]);
        }
    }
    assert forall|j: int| 0 <= j < q.len() implies #[trigger] g.link(q, source, j) by {
        if j < path.len() {
            assert(g.link(path, source, j));
        } else if j > 0 {
            assert(q[j - 1] == path.last());
        }
    }
}

impl Dinic {
    /// Passes by the slots of `node` that lead nowhere.
    fn skip(&mut self, node: usize, Ghost(level): Ghost<Seq<i64>>)
        requires
            old(self).shape(),
            old(self).phase(level),
            node < level.len(),
            old(self).level@[node as int] == level[node as int],
            0 <= level[node as int] < level.len(),
        ensures
            final(self).shape(),
            final(self).phase(level),
            final(self).same_graph(old(self)),
            final(self).level@ == old(self).level@,
            final(self).cap@ == old(self).cap@,
            final(self).next@[node as int] < final(self).head@[node + 1] ==> {
                let arc = final(self).next@[node as int] as int;
                &&& final(self).cap@[arc] > 0
                &&& final(self).level@[final(self).to@[arc] as int] == level[node as int] + 1
            },
    {
        let rows: usize = self.head.len();
        assert(node + 1 < rows);
        let end: u32 = self.head[node + 1];
        let ghost entry = *self;
        assert(self.cursor(node as int));
        while self.next[node] < end && !self.leads_on(node)
            invariant
                node < level.len(),
                end == self.head@[node + 1],
                self.shape(),
                self.same_graph(&entry),
                self.phase(level),
                self.level@ == entry.level@,
                self.cap@ == entry.cap@,
                self.level@[node as int] == level[node as int],
                0 <= level[node as int] < level.len(),
                self.head@[node as int] <= self.next@[node as int] <= end,
            decreases end - self.next@[node as int],
        {
            let ghost before = *self;
            let at: u32 = self.next[node] + 1;
            self.next.set(node, at);
            proof {
                lemma_same_shape(&before, self);
                lemma_phase_skip(&before, self, level, node as int);
            }
        }
    }

    /// The first full slot of a path that has one.
    fn saturated(&self, path: &Vec<u32>, Ghost(full): Ghost<int>) -> (r: usize)
        requires
            0 <= full < path@.len(),
            forall|k: int| 0 <= k < path@.len() ==> (#[trigger] path@[k]) < self.cap@.len(),
            self.cap@[path@[full] as int] == 0,
        ensures
            r < path@.len(),
            self.cap@[path@[r as int] as int] == 0,
            forall|k: int| 0 <= k < r ==> self.cap@[(#[trigger] path@[k]) as int] > 0,
    {
        let len: usize = path.len();
        let mut r: usize = 0;
        while self.cap[path[r] as usize] != 0
            invariant
                len == path@.len(),
                full < path@.len(),
                r <= full,
                forall|k: int| 0 <= k < path@.len() ==> (#[trigger] path@[k]) < self.cap@.len(),
                self.cap@[path@[full] as int] == 0,
                forall|k: int| 0 <= k < r ==> self.cap@[(#[trigger] path@[k]) as int] > 0,
            decreases full - r,
        {
            assert(r != full);
            r = r + 1;
        }
        r
    }

    /// Saturates the level graph, one path at a time.
    #[verifier::spinoff_prover]
    #[verifier::rlimit(80)]
    fn blocking_flow(
        &mut self,
        source: usize,
        sink: usize,
        Ghost(side): Ghost<Seq<bool>>,
        Ghost(sent): Ghost<int>,
    ) -> (total: u64)
        requires
            old(self).shape(),
            old(self).caps_ok(),
            source < old(self).level@.len(),
            sink < old(self).level@.len(),
            source != sink,
            old(self).layered(source as int),
            old(self).level@[sink as int] >= 0,
            old(self).conserved(source as int, sink as int, sent),
            sent >= 0,
            side[source as int],
            !side[sink as int],
            out_capacity(old(self).arcs@, side, old(self).arcs@.len() as int) <= u64::MAX,
        ensures
            final(self).shape(),
            final(self).caps_ok(),
            final(self).same_graph(old(self)),
            final(self).conserved(source as int, sink as int, sent + total),
            total >= 1,
    {
        let n: usize = self.level.len();
        let ghost level0 = self.level@;
        let ghost g0 = *self;
        let ghost bound = out_capacity(self.arcs@, side, self.arcs@.len() as int);
        let mut v: usize = 0;
        while v < n
            invariant
                v <= n,
                n == g0.level@.len(),
                g0.shape(),
                self.shape(),
                self.same_graph(&g0),
                self.level@ == g0.level@,
                self.cap@ == g0.cap@,
                forall|u: int| 0 <= u < v ==> #[trigger] self.next@[u] == self.head@[u],
            decreases n - v,
        {
            let ghost before = *self;
            let h: u32 = self.head[v];
            self.next.set(v, h);
            proof {
                lemma_same_shape(&before, self);
            }
            v = v + 1;
        }
        let mut total: u64 = 0;
        let mut path: Vec<u32> = Vec::new();
        let mut node: usize = source;
        proof {
            lemma_still(&g0, self, source as int, sink as int, sent);
            assert(self.phase(level0)) by {
                assert forall|u: int| 0 <= u < level0.len() implies #[trigger] self.cursor(u) by {
                    assert(self.row(u));
                    assert(self.next@[u] == self.head@[u]);
                }
                assert forall|a: int|
                    0 <= a < self.to@.len() implies a >= self.next@[#[trigger] self.tail(a)] by {
                    lemma_ends(self, a);
                    assert(self.slot(a));
                }
            }
            lemma_alive_bound(self.level@);
            lemma_flow_bound(self, side, source as int, sink as int, sent);
        }
        loop
            invariant
                n == level0.len(),
                g0 == *old(self),
                g0.shape(),
                g0.layered(source as int),
                g0.level@ == level0,
                source < n,
                sink < n,
                source != sink,
                level0[sink as int] >= 0,
                self.shape(),
                self.caps_ok(),
                self.same_graph(&g0),
                self.phase(level0),
                side[source as int],
                !side[sink as int],
                sent >= 0,
                bound == out_capacity(self.arcs@, side, self.arcs@.len() as int),
                bound <= u64::MAX,
                sent + total <= bound,
                self.conserved(source as int, sink as int, sent + total),
                total == 0 ==> self.cap@ == g0.cap@,
                self.level@[sink as int] == level0[sink as int],
                node < n,
                self.trail(level0, path@, source as int, node as int),
                self.open_path(path@),
                forall|k: int|
                    0 <= k < path@.len() ==> self.level@[self.tail((#[trigger] path@[k]) as int)] == k,
                self.level@[node as int] == path@.len(),
                level0[node as int] == path@.len(),
                path@.len() < n,
                alive(self.level@) >= 0,
            decreases bound - sent - total, alive(self.level@), n - path@.len(),
        {
            if node == sink {
                let ghost before = *self;
                proof {
                    assert(path@.len() > 0) by {
                        assert(level0[sink as int] != 0);
                    }
                    assert forall|k: int| 0 <= k < path@.len() implies (#[trigger] path@[k])
                        < self.cap@.len() by {}
                }
                let amount: u64 = self.bottleneck(&path);
                let ghost full = choose|k: int|
                    0 <= k < path@.len() && amount == self.cap@[(#[trigger] path@[k]) as int];
                proof {
                    assert(self.cap@[path@[full] as int] > 0);
                }
                self.augment(
                    &path,
                    amount,
                    Ghost(source as int),
                    Ghost(sink as int),
                    Ghost(level0),
                    Ghost(sent + total),
                );
                proof {
                    lemma_flow_bound(self, side, source as int, sink as int, sent + total + amount);
                    assert(self.cap@[path@[full] as int] == 0);
                }
                total = total + amount;
                let at: usize = self.saturated(&path, Ghost(full));
                let ghost whole = path@;
                proof {
                    lemma_ends(self, whole[at as int] as int);
                }
                let twin: usize = self.twin[path[at] as usize] as usize;
                node = self.to[twin] as usize;
                path.truncate(at);
                proof {
                    lemma_phase_caps(&before, self, level0);
                    assert(path@ =~= whole.take(at as int));
                    lemma_trail_same(&before, self, level0, whole, source as int, sink as int);
                    lemma_trail_take(self, level0, whole, source as int, sink as int, at as int);
                    assert forall|k: int| 0 <= k < path@.len() implies self.cap@[(
                    #[trigger] path@[k]) as int] > 0 by {
                        assert(path@[k] == whole[k]);
                    }
                    assert forall|k: int| 0 <= k < path@.len() implies self.level@[self.tail((
                    #[trigger] path@[k]) as int)] == k by {
                        assert(path@[k] == whole[k]);
                    }
                    assert(before.level@[before.tail(whole[at as int] as int)] == at);
                }
                continue;
            }
            let ghost entry = *self;
            self.skip(node, Ghost(level0));
            let rows: usize = self.head.len();
            assert(node + 1 < rows);
            let end: u32 = self.head[node + 1];
            proof {
                lemma_still(&entry, self, source as int, sink as int, sent + total);
                lemma_trail_same(&entry, self, level0, path@, source as int, node as int);
                assert(self.cursor(node as int));
            }
            if self.next[node] < end {
                let arc: u32 = self.next[node];
                proof {
                    assert(self.row(node as int));
                    assert(self.in_row(node as int, arc as int));
                    lemma_ends(self, arc as int);
                    assert(self.level@[self.to@[arc as int] as int] == level0[self.to@[arc as int] as int]);
                }
                let ghost before = path@;
                let ghost was = node as int;
                path.push(arc);
                node = self.to[arc as usize] as usize;
                proof {
                    lemma_trail_push(self, level0, before, source as int, was, arc);
                    assert(level0[node as int] < n);
                    assert forall|k: int| 0 <= k < path@.len() implies self.cap@[(
                    #[trigger] path@[k]) as int] > 0 && self.level@[self.tail(path@[k] as int)]
                        == k by {
                        if k < before.len() {
                            assert(path@[k] == before[k]);
                        }
                    }
                }
            } else {
                let ghost whole = path@;
                match path.pop() {
                    Some(arc) => {
                        let ghost before = *self;
                        let ghost dead = node as int;
                        proof {
                            lemma_alive_update(self.level@, node as int, -1i64);
                            lemma_ends(self, arc as int);
                        }
                        self.level.set(node, -1);
                        proof {
                            lemma_same_shape(&before, self);
                            lemma_ends(self, arc as int);
                            lemma_alive_bound(self.level@);
                            lemma_still(&before, self, source as int, sink as int, sent + total);
                            lemma_trail_same(&before, self, level0, whole, source as int, dead);
                            lemma_phase_dead(&before, self, level0, dead);
                            lemma_trail_take(
                                self,
                                level0,
                                whole,
                                source as int,
                                dead,
                                whole.len() - 1,
                            );
                            assert(path@ =~= whole.take(whole.len() - 1));
                            assert(whole[whole.len() - 1] == arc);
                            assert forall|k: int| 0 <= k < path@.len() implies self.cap@[(
                            #[trigger] path@[k]) as int] > 0 && self.level@[self.tail(
                                path@[k] as int,
                            )] == k by {
                                assert(path@[k] == whole[k]);
                                lemma_ends(self, whole[k] as int);
                                assert(before.cap@[whole[k] as int] > 0);
                                assert(before.level@[before.tail(whole[k] as int)] == k);
                                assert(level0[self.tail(whole[k] as int)] == k);
                            }
                        }
                        let twin: usize = self.twin[arc as usize] as usize;
                        node = self.to[twin] as usize;
                    },
                    None => {
                        proof {
                            if total == 0 {
                                assert forall|u: int|
                                    0 <= u < level0.len() && #[trigger] level0[u] > 0 implies exists|
                                    a: int,
                                |
                                    0 <= a < self.to@.len() && #[trigger] self.to@[a] == u
                                        && self.cap@[a] > 0 && self.rises(level0, a) by {
                                    let a = choose|a: int|
                                        0 <= a < g0.to@.len() && #[trigger] g0.to@[a] == u
                                            && g0.cap@[a] > 0 && g0.rises(level0, a);
                                    assert(self.to@[a] == u && self.rises(level0, a));
                                }
                                assert(level0[sink as int] > 0);
                                lemma_exhausted(self, level0, source as int, sink as int);
                            }
                        }
                        return total;
                    },
                }
            }
        }
    }

    /// Whether the current slot of `node` is open and leads one level up.
    fn leads_on(&self, node: usize) -> (r: bool)
        requires
            self.shape(),
            node < self.level@.len(),
            self.head@[node as int] <= self.next@[node as int] < self.head@[node + 1],
            0 <= self.level@[node as int] < self.level@.len(),
        ensures
            r == (self.cap@[self.next@[node as int] as int] > 0
                && self.level@[self.to@[self.next@[node as int] as int] as int]
                == self.level@[node as int] + 1),
    {
        let arc: usize = self.next[node] as usize;
        proof {
            assert(self.row(node as int));
            lemma_ends(self, arc as int);
        }
        self.cap[arc] > 0 && self.level[self.to[arc] as usize] == self.level[node] + 1
    }
}

proof fn lemma_still(o: &Dinic, g: &Dinic, s: int, t: int, total: int)
    requires
        o.conserved(s, t, total),
        o.caps_ok(),
        g.same_graph(o),
        g.cap@ == o.cap@,
    ensures
        g.conserved(s, t, total),
        g.caps_ok(),
{
    assert forall|side: Seq<bool>| #[trigger] g.out_of(side) == crossing(side, s, t, total) by {
        assert(o.out_of(side) == crossing(side, s, t, total));
    }
}

/// No more is sent than can cross a side.
proof fn lemma_flow_bound(g: &Dinic, side: Seq<bool>, s: int, t: int, total: int)
    requires
        g.shape(),
        g.caps_ok(),
        g.conserved(s, t, total),
        side[s],
        !side[t],
    ensures
        total <= out_capacity(g.arcs@, side, g.arcs@.len() as int),
{
    let flow = g.flow();
    assert forall|i: int| 0 <= i < flow.len() implies 0 <= #[trigger] flow[i] <= g.arcs@[i].2 by {
        assert(g.edge(i));
        assert(g.cap@[g.fwd@[i]] + g.cap@[g.rev@[i]] == g.arcs@[i].2);
    }
    lemma_net_bound(g.arcs@, flow, side, g.arcs@.len() as int);
    assert(g.out_of(side) == crossing(side, s, t, total));
}

impl Dinic {
    /// The side of the source: the nodes that are still reached.
    spec fn reached(&self) -> Seq<bool> {
        Seq::new(self.level@.len(), |v: int| self.level@[v] >= 0)
    }

    /// Sends as much as goes from `source` to `sink`, phase by phase.
    fn max_flow(&mut self, source: usize, sink: usize, Ghost(side): Ghost<Seq<bool>>) -> (total: u64)
        requires
            old(self).shape(),
            old(self).caps_ok(),
            source < old(self).level@.len(),
            sink < old(self).level@.len(),
            source != sink,
            old(self).conserved(source as int, sink as int, 0),
            side[source as int],
            !side[sink as int],
            out_capacity(old(self).arcs@, side, old(self).arcs@.len() as int) <= u64::MAX,
        ensures
            final(self).shape(),
            final(self).caps_ok(),
            final(self).same_graph(old(self)),
            final(self).conserved(source as int, sink as int, total as int),
            final(self).layered(source as int),
            final(self).closed_levels(),
            final(self).level@[sink as int] < 0,
    {
        let mut total: u64 = 0;
        let ghost bound = out_capacity(self.arcs@, side, self.arcs@.len() as int);
        loop
            invariant
                self.shape(),
                self.caps_ok(),
                self.same_graph(old(self)),
                source < self.level@.len(),
                sink < self.level@.len(),
                source != sink,
                self.conserved(source as int, sink as int, total as int),
                side[source as int],
                !side[sink as int],
                bound == out_capacity(self.arcs@, side, self.arcs@.len() as int),
                bound <= u64::MAX,
            decreases bound - total,
        {
            let ghost before = *self;
            let more: bool = self.build_levels(source, sink);
            proof {
                lemma_still(&before, self, source as int, sink as int, total as int);
            }
            if !more {
                return total;
            }
            let sent: u64 = self.blocking_flow(source, sink, Ghost(side), Ghost(total as int));
            proof {
                lemma_flow_bound(self, side, source as int, sink as int, total + sent);
            }
            total = total + sent;
        }
    }
}

/// When a side is crossed by all that it can be, the arcs out of it are full
/// and those into it are empty.
proof fn lemma_tight(arcs: Seq<Arc>, flow: Seq<int>, side: Seq<bool>, k: int, i: int)
    requires
        0 <= i < k <= flow.len(),
        flow.len() == arcs.len(),
        forall|j: int| 0 <= j < flow.len() ==> 0 <= #[trigger] flow[j] <= arcs[j].2,
        net(arcs, flow, side, k) == out_capacity(arcs, side, k),
    ensures
        side[arcs[i].0 as int] && !side[arcs[i].1 as int] ==> flow[i] == arcs[i].2,
        !side[arcs[i].0 as int] && side[arcs[i].1 as int] ==> flow[i] == 0,
    decreases k,
{
    lemma_net_bound(arcs, flow, side, k - 1);
    assert(0 <= flow[k - 1] <= arcs[k - 1].2);
    if i < k - 1 {
        lemma_tight(arcs, flow, side, k - 1, i);
    }
}

/// A node that is still reached is on the source's side of every minimum cut.
proof fn lemma_nearest(g: &Dinic, side: Seq<bool>, s: int, t: int, total: int, v: int)
    requires
        g.shape(),
        g.caps_ok(),
        g.conserved(s, t, total),
        g.layered(s),
        side[s],
        !side[t],
        out_capacity(g.arcs@, side, g.arcs@.len() as int) == total,
        0 <= v < g.level@.len(),
        g.level@[v] >= 0,
    ensures
        side[v],
    decreases g.level@[v],
{
    if g.level@[v] > 0 {
        let level = g.level@;
        let a = choose|a: int|
            0 <= a < g.to@.len() && #[trigger] g.to@[a] == v && g.cap@[a] > 0 && g.rises(level, a);
        lemma_ends(g, a);
        assert(g.slot(a));
        lemma_nearest(g, side, s, t, total, g.tail(a));
        let i = g.owner@[a].0;
        let flow = g.flow();
        assert forall|j: int| 0 <= j < flow.len() implies 0 <= #[trigger] flow[j]
            <= g.arcs@[j].2 by {
            assert(g.edge(j));
            assert(g.cap@[g.fwd@[j]] + g.cap@[g.rev@[j]] == g.arcs@[j].2);
        }
        assert(g.out_of(side) == crossing(side, s, t, total));
        lemma_tight(g.arcs@, flow, side, g.arcs@.len() as int, i);
        assert(g.cap@[g.fwd@[i]] + g.cap@[g.rev@[i]] == g.arcs@[i].2);
    }
}

/// `side` holds `source` and not `sink`.
pub open spec fn parts(side: Seq<bool>, source: int, sink: int) -> bool {
    side[source] && !side[sink]
}

/// The value of a maximum flow from `source` to `sink`, and the source's side
/// of a minimum cut: the smallest that there is.
pub fn min_side(num_nodes: usize, arcs: &[Arc], source: usize, sink: usize) -> (r: (u64, Vec<bool>))
    requires
        arcs_ok(arcs@, num_nodes as int),
        num_nodes < usize::MAX,
        num_nodes <= MAX_NODES,
        source < num_nodes,
        sink < num_nodes,
        source != sink,
        exists|side: Seq<bool>| #[trigger]
            parts(side, source as int, sink as int) && out_capacity(
                arcs@,
                side,
                arcs@.len() as int,
            ) <= u64::MAX,
    ensures
        r.1@.len() == num_nodes,
        parts(r.1@, source as int, sink as int),
        r.0 == out_capacity(arcs@, r.1@, arcs@.len() as int),
        forall|side: Seq<bool>| #[trigger]
            parts(side, source as int, sink as int) ==> r.0 <= out_capacity(
                arcs@,
                side,
                arcs@.len() as int,
            ),
        forall|side: Seq<bool>, v: int| #[trigger]
            parts(side, source as int, sink as int) && out_capacity(
                arcs@,
                side,
                arcs@.len() as int,
            ) == r.0 && 0 <= v < num_nodes && #[trigger] r.1@[v] ==> side[v],
{
    let mut g = Dinic::new(num_nodes, arcs);
    let ghost m = arcs@.len() as int;
    let ghost s = source as int;
    let ghost t = sink as int;
    let ghost some = choose|side: Seq<bool>| #[trigger]
        parts(side, s, t) && out_capacity(arcs@, side, m) <= u64::MAX;
    proof {
        assert forall|side: Seq<bool>| #[trigger] g.out_of(side) == crossing(side, s, t, 0) by {
            assert forall|i: int| 0 <= i < m implies #[trigger] g.flow()[i] == 0 by {
                assert(g.cap@[g.fwd@[i]] == arcs@[i].2);
            }
            lemma_net_zero(arcs@, g.flow(), side, m);
        }
    }
    let total: u64 = g.max_flow(source, sink, Ghost(some));
    let mut side: Vec<bool> = Vec::new();
    let mut v: usize = 0;
    while v < num_nodes
        invariant
            v <= num_nodes,
            g.level@.len() == num_nodes,
            side@.len() == v,
            forall|u: int| 0 <= u < v ==> #[trigger] side@[u] == (g.level@[u] >= 0),
        decreases num_nodes - v,
    {
        side.push(g.level[v] >= 0);
        v = v + 1;
    }
    proof {
        let flow = g.flow();
        assert forall|i: int| 0 <= i < flow.len() implies {
            &&& side@[arcs@[i].0 as int] && !side@[arcs@[i].1 as int] ==> #[trigger] flow[i]
                == arcs@[i].2
            &&& !side@[arcs@[i].0 as int] && side@[arcs@[i].1 as int] ==> flow[i] == 0
        } by {
            assert(g.edge(i));
            assert(g.slot(g.fwd@[i]));
            assert(g.slot(g.rev@[i]));
            assert(g.arcs@[i].0 < num_nodes && g.arcs@[i].1 < num_nodes);
            assert(g.cap@[g.fwd@[i]] + g.cap@[g.rev@[i]] == g.arcs@[i].2);
        }
        lemma_net_full(arcs@, flow, side@, m);
        assert(g.level@[s] == 0);
        assert(g.out_of(side@) == crossing(side@, s, t, total as int));
        assert forall|other: Seq<bool>| #[trigger] parts(other, s, t) implies total <= out_capacity(
            arcs@,
            other,
            m,
        ) by {
            lemma_flow_bound(&g, other, s, t, total as int);
        }
        assert forall|other: Seq<bool>, u: int| #[trigger]
            parts(other, s, t) && out_capacity(arcs@, other, m) == total && 0 <= u < num_nodes
                && #[trigger] side@[u] implies other[u] by {
            lemma_nearest(&g, other, s, t, total as int, u);
        }
    }
    (total, side)
}

/// A taken slot is not the next of a row.
proof fn lemma_free(
    q: Seq<Arc>,
    mm: int,
    o: (int, bool),
    head: Seq<u32>,
    cursor: Seq<u32>,
    a: int,
    v: int,
)
    requires
        0 <= o.0 < q.len(),
        0 <= mm,
        0 <= v < head.len() - 1,
        cursor.len() == head.len(),
        forall|i: int|
            0 <= i < q.len() ==> (#[trigger] q[i]).0 < head.len() - 1 && q[i].1 < head.len() - 1,
        forall|u: int| 0 <= u < head.len() ==> #[trigger] head[u] == degrees(q, u, mm),
        head[v] <= a < head[v + 1],
        a >= cursor[v],
        forall|u: int| 0 <= u < head.len() - 1 ==> #[trigger] cursor[u] <= head[u + 1],
    ensures
        !(head[tail_of(q, o)] <= a < cursor[tail_of(q, o)]),
{
    let u = tail_of(q, o);
    assert(q[o.0].0 < head.len() - 1);
    assert(head[u] == degrees(q, u, mm));
    assert(head[v] == degrees(q, v, mm));
    assert(cursor[u] <= head[u + 1]);
    if u < v {
        lemma_degrees_grow(q, u + 1, v, mm);
    } else if v < u {
        lemma_degrees_grow(q, v + 1, u, mm);
    }
}

/// What arcs can carry out of a side: nothing without arcs, and one arc more
/// adds its capacity just where it leads out.
pub proof fn lemma_capacity_adds_up(arcs: Seq<Arc>, a: Arc, side: Seq<bool>)
    ensures
        out_capacity(Seq::empty(), side, 0) == 0,
        out_capacity(arcs.push(a), side, arcs.len() as int + 1) == out_capacity(
            arcs,
            side,
            arcs.len() as int,
        ) + (if side[a.0 as int] && !side[a.1 as int] {
            a.2 as int
        } else {
            0
        }),
{
    lemma_capacity_prefix(arcs.push(a), arcs, side, arcs.len() as int);
}

proof fn lemma_capacity_prefix(a: Seq<Arc>, b: Seq<Arc>, side: Seq<bool>, k: int)
    requires
        0 <= k <= a.len(),
        k <= b.len(),
        forall|i: int| 0 <= i < k ==> a[i] == b[i],
    ensures
        out_capacity(a, side, k) == out_capacity(b, side, k),
    decreases k,
{
    if k > 0 {
        lemma_capacity_prefix(a, b, side, k - 1);
    }
}

/// A side parts two nodes just when it has the one and not the other.
pub proof fn lemma_parting_means(side: Seq<bool>, source: int, sink: int)
    ensures
        parts(side, source, sink) <==> side[source] && !side[sink],
{
}

} // verus!
