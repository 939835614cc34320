//! Token-level automaton for substring search.
//!
//! Each token moves the byte-level matching automaton as if its bytes were fed
//! one by one. The transitions are kept in two tiers: where each token leads
//! from state 0, and, for every other state, the few ranges of tokens that
//! lead elsewhere than from state 0. The ranges fall out of a walk over the
//! implicit trie of the sorted dictionary, pruned wherever the state at hand
//! and state 0 have converged.

use crate::dictionary::{codes_ok, decode, DictView};
use crate::order::{lemma_prefix_not_less, less, less_at, sized, sorted};
use crate::query::dfa::{lemma_row_accepts, lemma_row_decides, lemma_row_start, lemma_row_step};
use crate::bits::{lemma_mask_zero, mask_bit, set_bit};
use crate::query::filter::{bitmap_to_intervals, covered, intervals_ok};
use crate::query::window::{first_accept, stirs, stirs_from};
use crate::search::lookup::prefix_range;
use crate::text::{
    border, contains, lemma_fail_row, lemma_overlap, lemma_overlap_step, lemma_row_zero,
    lemma_contains_empty, lemma_run_absorbing, lemma_run_bound, lemma_run_concat, lemma_run_first,
    lemma_run_take, run, starts_with, step,
};
use crate::types::{Token, TokenRange, MAX_TOKENS, MAX_TOKEN_SIZE};
use vstd::prelude::*;

verus! {

/// Longest needle: states are bytes, and every prefix length is one.
pub const MAX_NEEDLE_LEN: usize = 255;

/// Flag of a token that contains the whole needle.
pub const CHAIN_DEFINITE: u8 = 4;

/// Flag of a token that opens a partial match from state 0.
pub const CHAIN_OPEN: u8 = 1;

/// Flag of a token that can go on with a partial match.
pub const CHAIN_CONT: u8 = 2;

/// Tokens of a range lead a given state to `target`.
#[derive(Copy, Clone)]
struct SparseTransition {
    range: TokenRange,
    target: u8,
}

/// `fail` holds the longest proper border of every prefix of `p` up to `k`.
spec fn is_fail(fail: Seq<u8>, p: Seq<u8>, k: int) -> bool {
    &&& fail.len() == p.len()
    &&& forall|i: int| 0 <= i < k ==> #[trigger] fail[i] == border(p, i + 1)
}

/// The next border follows from the last by a step of the automaton.
proof fn lemma_next_border(p: Seq<u8>, i: int)
    requires
        1 <= i < p.len(),
    ensures
        border(p, i + 1) == step(p, border(p, i), p[i]),
        border(p, i) < i,
        border(p, i + 1) <= i,
{
    let u = p.subrange(1, i);
    lemma_overlap(p, u);
    lemma_overlap_step(p, u, p[i]);
    assert(u.push(p[i]) =~= p.subrange(1, i + 1));
    lemma_overlap(p, p.subrange(1, i + 1));
}

/// The failure table of a needle: the longest proper border of each prefix.
fn failure_table(p: &[u8]) -> (fail: Vec<u8>)
    requires
        1 <= p@.len() <= MAX_NEEDLE_LEN,
    ensures
        is_fail(fail@, p@, p@.len() as int),
{
    let m: usize = p.len();
    let ghost q = p@;
    let mut fail: Vec<u8> = vec![0u8; m];
    let mut i: usize = 1;
    let mut len: usize = 0;
    proof {
        lemma_overlap(q, q.subrange(1, 1));
        if m > 1 {
            lemma_next_border(q, 1);
        }
    }
    while i < m
        invariant
            m == q.len(),
            q == p@,
            m <= MAX_NEEDLE_LEN,
            1 <= i <= m,
            len < i,
            is_fail(fail@, q, i as int),
            i < m ==> step(q, len as nat, q[i as int]) == border(q, i + 1),
        decreases m - i, len,
    {
        proof {
            lemma_next_border(q, i as int);
        }
        if p[i] == p[len] {
            proof {
                if len == 0 {
                    lemma_row_zero(q, q[i as int]);
                } else {
                    lemma_fail_row(q, len as int, q[i as int]);
                }
            }
            len = len + 1;
            fail.set(i, len as u8);
            i = i + 1;
            proof {
                if i < m {
                    lemma_next_border(q, i as int);
                }
            }
        } else if len > 0 {
            proof {
                lemma_fail_row(q, len as int, q[i as int]);
                assert(fail@[len - 1] == border(q, len as int));
            }
            len = fail[len - 1] as usize;
        } else {
            proof {
                lemma_row_zero(q, q[i as int]);
            }
            fail.set(i, 0);
            i = i + 1;
            proof {
                if i < m {
                    lemma_next_border(q, i as int);
                }
            }
        }
    }
    fail
}

/// Consumes `data` from state `s`, absorbing at the full match.
fn step_bytes(p: &[u8], fail: &Vec<u8>, s: u8, data: &[u8]) -> (r: u8)
    requires
        1 <= p@.len() <= MAX_NEEDLE_LEN,
        is_fail(fail@, p@, p@.len() as int),
        s <= p@.len(),
    ensures
        r == run(p@, s as nat, data@),
        r <= p@.len(),
{
    let m: usize = p.len();
    let ghost q = p@;
    let mut st: usize = s as usize;
    let mut i: usize = 0;
    proof {
        assert(data@.take(0) =~= Seq::<u8>::empty());
    }
    while i < data.len()
        invariant
            q == p@,
            m == q.len(),
            1 <= m <= MAX_NEEDLE_LEN,
            is_fail(fail@, q, m as int),
            s <= m,
            st <= m,
            i <= data@.len(),
            st == run(q, s as nat, data@.take(i as int)),
        decreases data@.len() - i,
    {
        if st == m {
            proof {
                lemma_run_absorbing(q, data@.skip(i as int));
                lemma_run_concat(q, s as nat, data@.take(i as int), data@.skip(i as int));
                assert(data@.take(i as int) + data@.skip(i as int) =~= data@);
            }
            return m as u8;
        }
        let b: u8 = data[i];
        let ghost from = st;
        while st > 0 && p[st] != b
            invariant
                q == p@,
                m == q.len(),
                1 <= m <= MAX_NEEDLE_LEN,
                is_fail(fail@, q, m as int),
                st < m,
                step(q, st as nat, b) == step(q, from as nat, b),
            decreases st,
        {
            proof {
                lemma_fail_row(q, st as int, b);
                assert(fail@[st - 1] == border(q, st as int));
            }
            st = fail[st - 1] as usize;
        }
        proof {
            if st == 0 {
                lemma_row_zero(q, b);
            } else {
                lemma_fail_row(q, st as int, b);
            }
            lemma_run_take(q, s as nat, data@, i as int);
        }
        if p[st] == b {
            st = st + 1;
        }
        i = i + 1;
    }
    assert(data@.take(i as int) =~= data@);
    st as u8
}

/// Whether `b` occurs in `data`.
fn holds_byte(data: &[u8], b: u8) -> (r: bool)
    ensures
        r == data@.contains(b),
{
    let mut i: usize = 0;
    while i < data.len()
        invariant
            i <= data@.len(),
            forall|k: int| 0 <= k < i ==> #[trigger] data@[k] != b,
        decreases data@.len() - i,
    {
        if data[i] == b {
            return true;
        }
        i = i + 1;
    }
    false
}

/// Without the needle's first byte the automaton does not leave state 0.
proof fn lemma_no_first_byte(p: Seq<u8>, data: Seq<u8>)
    requires
        p.len() > 0,
        !data.contains(p[0]),
    ensures
        run(p, 0, data) == 0,
    decreases data.len(),
{
    if data.len() > 0 {
        let front = data.drop_last();
        assert(!front.contains(p[0])) by {
            if front.contains(p[0]) {
                let k = choose|k: int| 0 <= k < front.len() && front[k] == p[0];
                assert(data[k] == p[0]);
            }
        }
        lemma_no_first_byte(p, front);
        lemma_row_zero(p, data.last());
        assert(data.contains(data.last()));
    }
}

/// The item holds `t`.
spec fn item_has(item: SparseTransition, t: int) -> bool {
    item.range.has(t)
}

/// Some item of the group holds `t`.
spec fn group_has(group: Seq<SparseTransition>, t: int) -> bool {
    exists|k: int| 0 <= k < group.len() && #[trigger] item_has(group[k], t)
}

/// `group` holds, ascending, exactly the tokens below `hi` that lead state `j`
/// elsewhere than state 0, with where they lead it.
spec fn is_group(
    group: Seq<SparseTransition>,
    p: Seq<u8>,
    tokens: Seq<Seq<u8>>,
    j: nat,
    hi: int,
) -> bool {
    &&& group.len() <= hi
    &&& forall|k: int|
        0 <= k < group.len() ==> (#[trigger] group[k]).range.begin <= group[k].range.last
            && group[k].range.last < hi
    &&& forall|k: int, l: int|
        0 <= k < l < group.len() ==> (#[trigger] group[k]).range.last < (
        #[trigger] group[l]).range.begin
    &&& forall|k: int, t: int|
        0 <= k < group.len() && #[trigger] item_has(group[k], t) ==> group[k].target == run(
            p,
            j,
            tokens[t],
        )
    &&& forall|t: int|
        0 <= t < hi ==> (#[trigger] group_has(group, t) <==> run(p, j, tokens[t]) != run(
            p,
            0,
            tokens[t],
        ))
}

/// Tokens that lead state `j` where they lead state 0 add nothing to a group.
proof fn lemma_group_skip(
    group: Seq<SparseTransition>,
    p: Seq<u8>,
    tokens: Seq<Seq<u8>>,
    j: nat,
    lo: int,
    hi: int,
)
    requires
        is_group(group, p, tokens, j, lo),
        0 <= lo <= hi,
        forall|t: int|
            lo <= t < hi ==> run(p, j, #[trigger] tokens[t]) == run(p, 0, tokens[t]),
    ensures
        is_group(group, p, tokens, j, hi),
{
    assert forall|t: int| 0 <= t < hi implies (#[trigger] group_has(group, t) <==> run(
        p,
        j,
        tokens[t],
    ) != run(p, 0, tokens[t])) by {
        if t >= lo {
            assert(run(p, j, tokens[t]) == run(p, 0, tokens[t]));
            if group_has(group, t) {
                let k = choose|k: int| 0 <= k < group.len() && #[trigger] item_has(group[k], t);
                assert(group[k].range.last < lo);
            }
        }
    }
}

/// The sparse transitions of one state, gathered by a walk over the trie of
/// the sorted dictionary.
struct SparsePass<'a> {
    dict: DictView<'a>,
    p: &'a [u8],
    fail: &'a Vec<u8>,
    base: &'a Vec<u8>,
    group: Vec<SparseTransition>,
}

impl<'a> SparsePass<'a> {
    spec fn wf(&self) -> bool {
        &&& self.dict.wf()
        &&& sorted(self.dict.tokens())
        &&& sized(self.dict.tokens())
        &&& 1 <= self.p@.len() <= MAX_NEEDLE_LEN
        &&& is_fail(self.fail@, self.p@, self.p@.len() as int)
        &&& self.base@.len() == self.dict.tokens().len()
        &&& forall|t: int|
            0 <= t < self.base@.len() ==> #[trigger] self.base@[t] == run(
                self.p@,
                0,
                self.dict.tokens()[t],
            )
    }

    /// Nothing but the group changes.
    spec fn same_inputs(&self, other: &SparsePass<'a>) -> bool {
        &&& self.dict == other.dict
        &&& self.p@ == other.p@
        &&& self.fail@ == other.fail@
        &&& self.base@ == other.base@
    }

    /// Extends the last item where the range goes on from it to the same
    /// target, and else adds an item.
    fn emit(&mut self, range: TokenRange, target: u8, Ghost(j): Ghost<nat>)
        requires
            old(self).wf(),
            is_group(
                old(self).group@,
                old(self).p@,
                old(self).dict.tokens(),
                j,
                range.begin as int,
            ),
            range.begin <= range.last,
            range.last < old(self).dict.tokens().len(),
            forall|t: int|
                range.begin <= t <= range.last ==> run(
                    old(self).p@,
                    j,
                    #[trigger] old(self).dict.tokens()[t],
                ) == target && run(old(self).p@, 0, old(self).dict.tokens()[t]) != target,
        ensures
            final(self).wf(),
            final(self).same_inputs(old(self)),
            is_group(
                final(self).group@,
                final(self).p@,
                final(self).dict.tokens(),
                j,
                range.last + 1,
            ),
    {
        let ghost p = self.p@;
        let ghost toks = self.dict.tokens();
        let ghost before = self.group@;
        let n: usize = self.group.len();
        let mut merged: bool = false;
        if n > 0 {
            let last: SparseTransition = self.group[n - 1];
            if last.target == target && last.range.last as u32 + 1 == range.begin as u32 {
                merged = true;
                self.group.set(
                    n - 1,
                    SparseTransition {
                        range: TokenRange { begin: last.range.begin, last: range.last },
                        target,
                    },
                );
            }
        }
        if !merged {
            self.group.push(SparseTransition { range, target });
        }
        proof {
            let after = self.group@;
            assert forall|k: int, l: int| 0 <= k < l < after.len() implies (
            #[trigger] after[k]).range.last < (#[trigger] after[l]).range.begin by {
                if k < before.len() {
                    assert(before[k].range.last < range.begin);
                    if merged && l < before.len() {
                        assert(before[k].range.last < before[l].range.begin);
                    }
                }
            }
            assert forall|k: int, t: int| 0 <= k < after.len() && #[trigger] item_has(
                after[k],
                t,
            ) implies after[k].target == run(p, j, toks[t]) by {
                if k < before.len() && item_has(before[k], t) {
                    assert(before[k].target == run(p, j, toks[t]));
                } else {
                    assert(range.begin <= t <= range.last);
                    assert(run(p, j, toks[t]) == target);
                }
            }
            assert forall|t: int| 0 <= t < range.last + 1 implies (#[trigger] group_has(after, t)
                <==> run(p, j, toks[t]) != run(p, 0, toks[t])) by {
                if t >= range.begin {
                    assert(run(p, j, toks[t]) == target);
                    assert(item_has(after[after.len() - 1], t));
                } else {
                    assert(group_has(before, t) <==> run(p, j, toks[t]) != run(p, 0, toks[t]));
                    if group_has(before, t) {
                        let k = choose|k: int|
                            0 <= k < before.len() && #[trigger] item_has(before[k], t);
                        assert(item_has(after[k], t));
                    }
                    if group_has(after, t) {
                        let k = choose|k: int|
                            0 <= k < after.len() && #[trigger] item_has(after[k], t);
                        assert(item_has(before[k], t));
                    }
                }
            }
        }
    }

    /// Walks the tokens of `tr`, which share their first `depth` bytes, with
    /// the states that those lead state `j` and state 0 to.
    fn traverse(&mut self, tr: TokenRange, depth: usize, kmp_j: u8, kmp_0: u8, Ghost(j): Ghost<nat>, Ghost(w): Ghost<Seq<u8>>)
        requires
            old(self).wf(),
            is_group(
                old(self).group@,
                old(self).p@,
                old(self).dict.tokens(),
                j,
                tr.begin as int,
            ),
            j <= old(self).p@.len(),
            tr.begin <= tr.last,
            tr.last < old(self).dict.tokens().len(),
            w.len() == depth,
            depth <= MAX_TOKEN_SIZE,
            forall|t: int|
                tr.begin <= t <= tr.last ==> starts_with(#[trigger] old(self).dict.tokens()[t], w),
            kmp_j == run(old(self).p@, j, w),
            kmp_0 == run(old(self).p@, 0, w),
        ensures
            final(self).wf(),
            final(self).same_inputs(old(self)),
            is_group(
                final(self).group@,
                final(self).p@,
                final(self).dict.tokens(),
                j,
                tr.last + 1,
            ),
        decreases MAX_TOKEN_SIZE - depth,
    {
        let ghost p = self.p@;
        let ghost toks = self.dict.tokens();
        proof {
            assert forall|t: int| tr.begin <= t <= tr.last implies (#[trigger] run(p, j, toks[t])
                == run(p, kmp_j as nat, toks[t].skip(depth as int))) && run(p, 0, toks[t]) == run(
                p,
                kmp_0 as nat,
                toks[t].skip(depth as int),
            ) by {
                assert(starts_with(toks[t], w));
                assert(w + toks[t].skip(depth as int) =~= toks[t]);
                lemma_run_concat(p, j, w, toks[t].skip(depth as int));
                lemma_run_concat(p, 0, w, toks[t].skip(depth as int));
            }
        }
        if kmp_j == kmp_0 {
            proof {
                assert forall|t: int| tr.begin <= t < tr.last + 1 implies run(
                    p,
                    j,
                    #[trigger] toks[t],
                ) == run(p, 0, toks[t]) by {
                    assert(run(p, j, toks[t]) == run(p, kmp_j as nat, toks[t].skip(depth as int)));
                }
                lemma_group_skip(
                    self.group@,
                    p,
                    toks,
                    j,
                    tr.begin as int,
                    tr.last + 1,
                );
            }
            return;
        }
        let m: usize = self.p.len();
        let last: usize = tr.last as usize;
        if kmp_j as usize == m {
            // Every token of the range completes the match; those that do so
            // from state 0 too need no item.
            let mut i: usize = tr.begin as usize;
            proof {
                assert forall|t: int| tr.begin <= t <= last implies #[trigger] run(p, j, toks[t])
                    == m by {
                    lemma_run_absorbing(p, toks[t].skip(depth as int));
                }
            }
            while i <= last
                invariant
                    self.wf(),
                    self.same_inputs(old(self)),
                    p == self.p@,
                    toks == self.dict.tokens(),
                    m == p.len(),
                    last == tr.last,
                    tr.begin <= i <= last + 1,
                    last < toks.len(),
                    is_group(self.group@, p, toks, j, i as int),
                    forall|t: int|
                        tr.begin <= t <= last ==> #[trigger] run(p, j, toks[t]) == m,
                decreases last + 1 - i,
            {
                if self.base[i] as usize != m {
                    let from: usize = i;
                    while i <= last && self.base[i] as usize != m
                        invariant
                            self.wf(),
                            p == self.p@,
                            toks == self.dict.tokens(),
                            m == p.len(),
                            last < toks.len(),
                            from <= i <= last + 1,
                            forall|t: int| from <= t < i ==> run(p, 0, #[trigger] toks[t]) != m,
                        decreases last + 1 - i,
                    {
                        assert(self.base@[i as int] == run(p, 0, toks[i as int]));
                        i = i + 1;
                    }
                    proof {
                        assert(from < i) by {
                            if from == i {
                                assert(self.base@[i as int] == m);
                            }
                        }
                        assert forall|t: int| from <= t <= i - 1 implies run(
                            p,
                            j,
                            #[trigger] toks[t],
                        ) == m && run(p, 0, toks[t]) != m by {
                            assert(run(p, j, toks[t]) == m);
                        }
                    }
                    self.emit(
                        TokenRange { begin: from as Token, last: (i - 1) as Token },
                        m as u8,
                        Ghost(j),
                    );
                } else {
                    proof {
                        assert(self.base@[i as int] == run(p, 0, toks[i as int]));
                        assert(run(p, j, toks[i as int]) == m);
                        lemma_group_skip(self.group@, p, toks, j, i as int, i + 1);
                    }
                    i = i + 1;
                }
            }
            return;
        }
        // A token of exactly these bytes is consumed, and sorts first.
        let mut cur: usize = tr.begin as usize;
        while cur <= last && self.dict.token_len(cur as Token) == depth
            invariant
                self.wf(),
                p == self.p@,
                toks == self.dict.tokens(),
                last == tr.last,
                last < toks.len(),
                toks.len() <= MAX_TOKENS,
                tr.begin <= cur <= last + 1,
                w.len() == depth,
                forall|t: int| tr.begin <= t < cur ==> (#[trigger] toks[t]).len() == depth,
            decreases last + 1 - cur,
        {
            cur = cur + 1;
        }
        if cur > tr.begin as usize {
            proof {
                assert forall|t: int| tr.begin <= t <= cur - 1 implies run(
                    p,
                    j,
                    #[trigger] toks[t],
                ) == kmp_j && run(p, 0, toks[t]) != kmp_j by {
                    assert(starts_with(toks[t], w));
                    assert(toks[t].len() == depth);
                    assert(toks[t].skip(depth as int) =~= Seq::<u8>::empty());
                    assert(run(p, j, toks[t]) == run(
                        p,
                        kmp_j as nat,
                        toks[t].skip(depth as int),
                    ));
                }
            }
            self.emit(
                TokenRange { begin: tr.begin, last: (cur - 1) as Token },
                kmp_j,
                Ghost(j),
            );
        }
        proof {
            // The others are longer: one of these bytes alone would sort
            // before its extensions.
            assert forall|t: int| cur <= t <= last implies (#[trigger] toks[t]).len() > depth by {
                assert(starts_with(toks[t], w));
                if toks[t].len() == depth {
                    assert(toks[t] =~= w) by {
                        assert(toks[t].take(depth as int) =~= toks[t]);
                    }
                    if cur < t {
                        assert(less(toks[cur as int], toks[t]));
                        assert(starts_with(toks[cur as int], w));
                        lemma_prefix_not_less(toks[cur as int], w);
                    }
                }
            }
        }
        proof {
            lemma_run_bound(p, j, w);
            lemma_run_bound(p, 0, w);
        }
        while cur <= last
            invariant
                self.wf(),
                self.same_inputs(old(self)),
                p == self.p@,
                toks == self.dict.tokens(),
                j <= p.len(),
                last == tr.last,
                last < toks.len(),
                toks.len() <= MAX_TOKENS,
                tr.begin <= cur <= last + 1,
                w.len() == depth,
                depth <= MAX_TOKEN_SIZE,
                kmp_j == run(p, j, w),
                kmp_0 == run(p, 0, w),
                kmp_j <= p.len(),
                kmp_0 <= p.len(),
                forall|t: int| tr.begin <= t <= last ==> starts_with(#[trigger] toks[t], w),
                forall|t: int| cur <= t <= last ==> (#[trigger] toks[t]).len() > depth,
                is_group(self.group@, p, toks, j, cur as int),
            decreases last + 1 - cur,
        {
            assert(toks[cur as int].len() > depth);
            let c: u8 = self.dict.token(cur as Token)[depth];
            let mut sub_hi: usize = cur;
            while sub_hi < last && self.dict.token((sub_hi + 1) as Token)[depth] == c
                invariant
                    self.wf(),
                    toks == self.dict.tokens(),
                    last < toks.len(),
                    toks.len() <= MAX_TOKENS,
                    cur <= sub_hi <= last,
                    forall|t: int| cur <= t <= last ==> (#[trigger] toks[t]).len() > depth,
                    forall|t: int| cur <= t <= sub_hi ==> (#[trigger] toks[t])[depth as int] == c,
                decreases last - sub_hi,
            {
                sub_hi = sub_hi + 1;
            }
            let one: [u8; 1] = [c];
            let nj: u8 = step_bytes(self.p, self.fail, kmp_j, &one);
            let n0: u8 = step_bytes(self.p, self.fail, kmp_0, &one);
            let ghost w2 = w.push(c);
            proof {
                assert(one@ =~= seq![c]);
                assert(w + seq![c] =~= w2);
                lemma_run_concat(p, j, w, seq![c]);
                lemma_run_concat(p, 0, w, seq![c]);
                assert forall|t: int| cur <= t <= sub_hi implies starts_with(
                    #[trigger] toks[t],
                    w2,
                ) by {
                    assert(starts_with(toks[t], w));
                    assert(toks[t].len() > depth);
                    assert(toks[t].take(depth + 1) =~= w2) by {
                        assert forall|i: int| 0 <= i < depth + 1 implies toks[t][i] == w2[i] by {
                            if i < depth {
                                assert(toks[t].take(depth as int)[i] == w[i]);
                            }
                        }
                    }
                }
                assert(toks[cur as int].len() <= MAX_TOKEN_SIZE);
            }
            self.traverse(
                TokenRange { begin: cur as Token, last: sub_hi as Token },
                depth + 1,
                nj,
                n0,
                Ghost(j),
                Ghost(w2),
            );
            cur = sub_hi + 1;
        }
    }
}

/// First bytes ascend in a sorted dictionary.
proof fn lemma_first_bytes(tokens: Seq<Seq<u8>>, i: int, k: int)
    requires
        sorted(tokens),
        sized(tokens),
        0 <= i <= k < tokens.len(),
    ensures
        tokens[i].len() > 0,
        tokens[k].len() > 0,
        tokens[i][0] <= tokens[k][0],
{
    assert(tokens[i].len() >= 1);
    assert(tokens[k].len() >= 1);
    if i < k {
        assert(less(tokens[i], tokens[k]));
        let d = choose|d: int| less_at(tokens[i], tokens[k], d);
        if d > 0 {
            assert(tokens[i].take(d)[0] == tokens[k].take(d)[0]);
        }
    }
}

/// Where the tokens whose first byte is at least `b` begin.
proof fn first_at_least(tokens: Seq<Seq<u8>>, b: int) -> (hi: int)
    requires
        sorted(tokens),
        sized(tokens),
    ensures
        0 <= hi <= tokens.len(),
        forall|t: int| 0 <= t < hi ==> (#[trigger] tokens[t])[0] < b,
        forall|t: int| hi <= t < tokens.len() ==> (#[trigger] tokens[t])[0] >= b,
{
    if exists|t: int| 0 <= t < tokens.len() && (#[trigger] tokens[t])[0] >= b {
        let t = choose|t: int| 0 <= t < tokens.len() && (#[trigger] tokens[t])[0] >= b;
        first_at_least_upto(tokens, b, t)
    } else {
        tokens.len() as int
    }
}

proof fn first_at_least_upto(tokens: Seq<Seq<u8>>, b: int, k: int) -> (hi: int)
    requires
        sorted(tokens),
        sized(tokens),
        0 <= k < tokens.len(),
        tokens[k][0] >= b,
    ensures
        0 <= hi <= k,
        forall|t: int| 0 <= t < hi ==> (#[trigger] tokens[t])[0] < b,
        forall|t: int| hi <= t < tokens.len() ==> (#[trigger] tokens[t])[0] >= b,
    decreases k,
{
    if k > 0 && tokens[k - 1][0] >= b {
        first_at_least_upto(tokens, b, k - 1)
    } else {
        assert forall|t: int| 0 <= t < k implies (#[trigger] tokens[t])[0] < b by {
            lemma_first_bytes(tokens, t, k - 1);
        }
        assert forall|t: int| k <= t < tokens.len() implies (#[trigger] tokens[t])[0] >= b by {
            lemma_first_bytes(tokens, k, t);
        }
        k
    }
}

/// The bytes along the failure chain of state `j`, the only ones that can lead
/// it elsewhere than state 0.
fn relevant_bytes(p: &[u8], fail: &Vec<u8>, j: usize) -> (r: Vec<bool>)
    requires
        1 <= p@.len() <= MAX_NEEDLE_LEN,
        is_fail(fail@, p@, p@.len() as int),
        1 <= j < p@.len(),
    ensures
        r@.len() == 256,
        forall|b: int|
            0 <= b < 256 && !#[trigger] r@[b] ==> step(p@, j as nat, b as u8) == step(
                p@,
                0,
                b as u8,
            ),
{
    let ghost q = p@;
    let mut r: Vec<bool> = vec![false; 256];
    let mut s: usize = j;
    while s > 0
        invariant
            q == p@,
            1 <= q.len() <= MAX_NEEDLE_LEN,
            is_fail(fail@, q, q.len() as int),
            s < q.len(),
            r@.len() == 256,
            forall|b: int|
                0 <= b < 256 && !#[trigger] r@[b] ==> step(q, j as nat, b as u8) == step(
                    q,
                    s as nat,
                    b as u8,
                ),
        decreases s,
    {
        let ghost before = r@;
        r.set(p[s] as usize, true);
        proof {
            assert(fail@[s - 1] == border(q, s as int));
            lemma_fail_row(q, s as int, 0);
            assert forall|b: int| 0 <= b < 256 && !#[trigger] r@[b] implies step(
                q,
                j as nat,
                b as u8,
            ) == step(q, border(q, s as int), b as u8) by {
                assert(!before[b]);
                lemma_fail_row(q, s as int, b as u8);
            }
        }
        s = fail[s - 1] as usize;
    }
    r
}

/// The sparse transitions of state `j`.
fn sparse_group(dict: DictView<'_>, p: &[u8], fail: &Vec<u8>, base: &Vec<u8>, j: usize) -> (group: Vec<
    SparseTransition,
>)
    requires
        dict.wf(),
        sorted(dict.tokens()),
        sized(dict.tokens()),
        1 <= p@.len() <= MAX_NEEDLE_LEN,
        is_fail(fail@, p@, p@.len() as int),
        base@.len() == dict.tokens().len(),
        forall|t: int|
            0 <= t < base@.len() ==> #[trigger] base@[t] == run(p@, 0, dict.tokens()[t]),
        1 <= j < p@.len(),
    ensures
        is_group(group@, p@, dict.tokens(), j as nat, dict.tokens().len() as int),
{
    let ghost q = p@;
    let ghost toks = dict.tokens();
    let relevant = relevant_bytes(p, fail, j);
    let mut pass = SparsePass { dict, p, fail, base, group: Vec::new() };
    let ghost mut hi: int = 0;
    let mut b: usize = 0;
    while b < 256
        invariant
            b <= 256,
            pass.wf(),
            pass.dict == dict,
            pass.p@ == q,
            q == p@,
            toks == dict.tokens(),
            sorted(toks),
            sized(toks),
            pass.fail@ == fail@,
            1 <= q.len() <= MAX_NEEDLE_LEN,
            is_fail(fail@, q, q.len() as int),
            1 <= j < q.len(),
            relevant@.len() == 256,
            forall|c: int|
                0 <= c < 256 && !#[trigger] relevant@[c] ==> step(q, j as nat, c as u8) == step(
                    q,
                    0,
                    c as u8,
                ),
            0 <= hi <= toks.len(),
            forall|t: int| 0 <= t < hi ==> (#[trigger] toks[t])[0] < b,
            forall|t: int| hi <= t < toks.len() ==> (#[trigger] toks[t])[0] >= b,
            is_group(pass.group@, q, toks, j as nat, hi),
        decreases 256 - b,
    {
        let ghost hi2 = first_at_least(toks, b + 1);
        proof {
            assert(hi <= hi2) by {
                if hi2 < hi {
                    assert(toks[hi2][0] < b);
                }
            }
        }
        let mut walked: bool = false;
        if relevant[b] {
            let one: [u8; 1] = [b as u8];
            let range = prefix_range(dict, &one);
            proof {
                assert(one@ =~= seq![b as u8]);
                assert forall|t: int| #[trigger] range.has(t) <==> hi <= t < hi2 by {
                    assert(range.has(t) <==> 0 <= t < toks.len() && starts_with(toks[t], one@));
                    if 0 <= t < toks.len() {
                        assert(toks[t].len() >= 1);
                        if starts_with(toks[t], one@) {
                            assert(toks[t].take(1)[0] == b);
                        }
                        if toks[t][0] == b {
                            assert(toks[t].take(1) =~= one@);
                        }
                    }
                }
            }
            if !range.is_empty() {
                walked = true;
                let kmp_j: u8 = step_bytes(p, fail, j as u8, &one);
                let kmp_0: u8 = step_bytes(p, fail, 0, &one);
                proof {
                    assert(range.has(range.begin as int));
                    assert(range.has(range.last as int));
                    assert(!range.has(range.begin - 1));
                    assert(!range.has(range.last + 1));
                    assert forall|t: int| range.begin <= t <= range.last implies starts_with(
                        #[trigger] toks[t],
                        one@,
                    ) by {
                        assert(range.has(t));
                    }
                }
                pass.traverse(range, 1, kmp_j, kmp_0, Ghost(j as nat), Ghost(one@));
            } else {
                proof {
                    if hi < hi2 {
                        assert(range.has(hi));
                    }
                }
            }
        }
        proof {
            if !walked {
                assert forall|t: int| hi <= t < hi2 implies run(q, j as nat, #[trigger] toks[t])
                    == run(q, 0, toks[t]) by {
                    assert(toks[t].len() >= 1);
                    assert(toks[t][0] == b);
                    lemma_run_first(q, j as nat, 0, toks[t]);
                }
                lemma_group_skip(pass.group@, q, toks, j as nat, hi, hi2);
            }
            hi = hi2;
        }
        b = b + 1;
    }
    proof {
        assert(hi == toks.len()) by {
            if hi < toks.len() {
                assert(toks[hi][0] >= 256);
            }
        }
    }
    pass.group
}

/// `token` completes a match by itself, or from a state below `k` leads
/// elsewhere than from state 0, and not to state 0.
pub open spec fn inner_from(p: Seq<u8>, token: Seq<u8>, k: int) -> bool {
    run(p, 0, token) == p.len() || exists|s: int|
        1 <= s < k && #[trigger] run(p, s as nat, token) != run(p, 0, token) && run(
            p,
            s as nat,
            token,
        ) != 0
}

/// `token` can complete a match, or go on with one.
pub open spec fn is_inner(p: Seq<u8>, token: Seq<u8>) -> bool {
    inner_from(p, token, p.len() as int)
}

/// The flags of a token.
pub open spec fn chain_flags(p: Seq<u8>, token: Seq<u8>) -> int {
    if run(p, 0, token) == p.len() {
        CHAIN_DEFINITE + CHAIN_OPEN + CHAIN_CONT
    } else if run(p, 0, token) != 0 {
        CHAIN_OPEN + CHAIN_CONT
    } else if stirs(p, token) {
        CHAIN_CONT as int
    } else {
        0
    }
}

/// Token-level automaton for substring search.
pub struct KmpAutomaton {
    match_state: u8,
    base: Vec<u8>,
    sparse: Vec<SparseTransition>,
    offsets: Vec<u32>,
    tokens: Ghost<Seq<Seq<u8>>>,
    pattern: Ghost<Seq<u8>>,
}

impl KmpAutomaton {
    /// The needle that the automaton looks for.
    pub closed spec fn pattern(&self) -> Seq<u8> {
        self.pattern@
    }

    /// The tokens of its dictionary.
    pub closed spec fn tokens(&self) -> Seq<Seq<u8>> {
        self.tokens@
    }

    /// The transitions of state `s` that differ from those of state 0.
    spec fn group(&self, s: int) -> Seq<SparseTransition> {
        self.sparse@.subrange(self.offsets@[s] as int, self.offsets@[s + 1] as int)
    }

    /// The automaton is that of its needle and dictionary.
    pub closed spec fn wf(&self) -> bool {
        let p = self.pattern@;
        let t = self.tokens@;
        &&& p.len() <= MAX_NEEDLE_LEN
        &&& self.match_state == p.len()
        &&& t.len() <= MAX_TOKENS
        &&& self.base@.len() == t.len()
        &&& p.len() > 0 ==> {
            &&& forall|c: int| 0 <= c < t.len() ==> #[trigger] self.base@[c] == run(p, 0, t[c])
            &&& self.offsets@.len() == p.len() + 1
            &&& forall|s: int|
                1 <= s < p.len() ==> 0 <= #[trigger] self.offsets@[s] <= self.offsets@[s + 1]
                    <= self.sparse@.len() && is_group(self.group(s), p, t, s as nat, t.len() as int)
        }
    }

    /// Builds the automaton of `pattern` over a sorted dictionary.
    pub fn new(pattern: &[u8], dict: DictView<'_>) -> (r: KmpAutomaton)
        requires
            pattern@.len() <= MAX_NEEDLE_LEN,
            dict.wf(),
            sorted(dict.tokens()),
            sized(dict.tokens()),
        ensures
            r.wf(),
            r.pattern() == pattern@,
            r.tokens() == dict.tokens(),
    {
        let m: usize = pattern.len();
        let n: usize = dict.num_tokens();
        let ghost p = pattern@;
        let ghost toks = dict.tokens();
        if m == 0 {
            return KmpAutomaton {
                match_state: 0,
                base: vec![0u8; n],
                sparse: Vec::new(),
                offsets: vec![0u32; 2],
                tokens: Ghost(toks),
                pattern: Ghost(p),
            };
        }
        let fail = failure_table(pattern);

        // Where each token leads from state 0.
        let mut base: Vec<u8> = Vec::new();
        let p0: u8 = pattern[0];
        let mut t: usize = 0;
        while t < n
            invariant
                t <= n,
                n == toks.len(),
                n <= MAX_TOKENS,
                dict.wf(),
                toks == dict.tokens(),
                p == pattern@,
                1 <= p.len() <= MAX_NEEDLE_LEN,
                p0 == p[0],
                is_fail(fail@, p, p.len() as int),
                base@.len() == t,
                forall|c: int| 0 <= c < t ==> #[trigger] base@[c] == run(p, 0, toks[c]),
            decreases n - t,
        {
            let token = dict.token(t as Token);
            let d: u8 = if holds_byte(token, p0) {
                step_bytes(pattern, &fail, 0, token)
            } else {
                proof {
                    lemma_no_first_byte(p, token@);
                }
                0
            };
            base.push(d);
            t = t + 1;
        }

        // Where the other states are led elsewhere.
        let mut offsets: Vec<u32> = vec![0u32; 2];
        let mut sparse: Vec<SparseTransition> = Vec::new();
        let mut j: usize = 1;
        while j < m
            invariant
                1 <= j <= m,
                m == p.len(),
                p == pattern@,
                1 <= m <= MAX_NEEDLE_LEN,
                n == toks.len(),
                n <= MAX_TOKENS,
                dict.wf(),
                toks == dict.tokens(),
                sorted(toks),
                sized(toks),
                is_fail(fail@, p, m as int),
                base@.len() == n,
                forall|c: int| 0 <= c < n ==> #[trigger] base@[c] == run(p, 0, toks[c]),
                offsets@.len() == j + 1,
                offsets@[j as int] == sparse@.len(),
                sparse@.len() <= j * MAX_TOKENS,
                forall|s: int|
                    1 <= s < j ==> 0 <= #[trigger] offsets@[s] <= offsets@[s + 1] <= sparse@.len()
                        && is_group(
                        sparse@.subrange(offsets@[s] as int, offsets@[s + 1] as int),
                        p,
                        toks,
                        s as nat,
                        n as int,
                    ),
            decreases m - j,
        {
            let mut group = sparse_group(dict, pattern, &fail, &base, j);
            let ghost before = sparse@;
            let ghost old_offsets = offsets@;
            let ghost g = group@;
            sparse.append(&mut group);
            offsets.push(sparse.len() as u32);
            proof {
                assert(sparse@ == before + g);
                assert(sparse@.subrange(before.len() as int, sparse@.len() as int) =~= g);
                assert forall|s: int| 1 <= s < j + 1 implies 0 <= #[trigger] offsets@[s]
                    <= offsets@[s + 1] <= sparse@.len() && is_group(
                    sparse@.subrange(offsets@[s] as int, offsets@[s + 1] as int),
                    p,
                    toks,
                    s as nat,
                    n as int,
                ) by {
                    if s < j {
                        assert(old_offsets[s] <= old_offsets[s + 1]);
                        assert(sparse@.subrange(offsets@[s] as int, offsets@[s + 1] as int)
                            =~= before.subrange(
                            old_offsets[s] as int,
                            old_offsets[s + 1] as int,
                        ));
                    }
                }
            }
            j = j + 1;
        }
        let r = KmpAutomaton {
            match_state: m as u8,
            base,
            sparse,
            offsets,
            tokens: Ghost(toks),
            pattern: Ghost(p),
        };
        proof {
            assert forall|s: int| 1 <= s < p.len() implies 0 <= #[trigger] r.offsets@[s]
                <= r.offsets@[s + 1] <= r.sparse@.len() && is_group(
                r.group(s),
                p,
                toks,
                s as nat,
                toks.len() as int,
            ) by {
                assert(offsets@[s] <= offsets@[s + 1]);
            }
        }
        r
    }

    /// The transition of a state between the first and the full match.
    fn next_state(&self, state: u8, t: Token) -> (r: u8)
        requires
            self.wf(),
            1 <= state < self.pattern@.len(),
            t < self.tokens@.len(),
        ensures
            r == run(self.pattern@, state as nat, self.tokens@[t as int]),
    {
        let ghost p = self.pattern@;
        let ghost toks = self.tokens@;
        let ghost g = self.group(state as int);
        assert(0 <= self.offsets@[state as int] <= self.offsets@[state + 1] <= self.sparse@.len());
        let lo: usize = self.offsets[state as usize] as usize;
        let hi: usize = self.offsets[state as usize + 1] as usize;
        let mut k: usize = lo;
        while k < hi
            invariant
                self.wf(),
                p == self.pattern@,
                toks == self.tokens@,
                1 <= state < p.len(),
                t < toks.len(),
                lo <= k <= hi <= self.sparse@.len(),
                g == self.sparse@.subrange(lo as int, hi as int),
                is_group(g, p, toks, state as nat, toks.len() as int),
                forall|l: int| 0 <= l < k - lo ==> !#[trigger] item_has(g[l], t as int),
            decreases hi - k,
        {
            let tr: SparseTransition = self.sparse[k];
            assert(g[k - lo] == tr);
            if t < tr.range.begin {
                proof {
                    assert forall|l: int| 0 <= l < g.len() implies !#[trigger] item_has(
                        g[l],
                        t as int,
                    ) by {
                        if l > k - lo {
                            assert(g[k - lo].range.last < g[l].range.begin);
                        }
                    }
                    assert(!group_has(g, t as int));
                }
                return self.base[t as usize];
            }
            if t <= tr.range.last {
                assert(item_has(g[k - lo], t as int));
                return tr.target;
            }
            assert(!item_has(g[k - lo], t as int));
            k = k + 1;
        }
        assert(!group_has(g, t as int));
        self.base[t as usize]
    }

    /// Whether the needle is empty, so that every row matches.
    pub fn is_empty_needle(&self) -> (r: bool)
        requires
            self.wf(),
        ensures
            r == (self.pattern().len() == 0),
    {
        self.match_state == 0
    }

    /// Whether a row contains the needle: a fast path while no partial match
    /// is open, and a slow one that steps carefully until it completes, dies,
    /// or the row ends.
    pub fn matches(&self, codes: &[Token]) -> (r: bool)
        requires
            self.wf(),
            self.pattern().len() > 0 ==> codes_ok(codes@, self.tokens().len()),
        ensures
            r == contains(decode(self.tokens(), codes@), self.pattern()),
    {
        let ghost p = self.pattern@;
        let ghost toks = self.tokens@;
        let ghost cs = codes@;
        if self.match_state == 0 {
            proof {
                lemma_contains_empty(decode(toks, cs), p);
            }
            return true;
        }
        let match_state: u8 = self.match_state;
        let n: usize = codes.len();
        let mut i: usize = 0;
        proof {
            lemma_row_start(p, toks, cs);
        }
        while i < n
            invariant
                self.wf(),
                p == self.pattern@,
                toks == self.tokens@,
                cs == codes@,
                n == cs.len(),
                p.len() > 0,
                match_state == p.len(),
                codes_ok(cs, toks.len()),
                i <= n,
                run(p, 0, decode(toks, cs.take(i as int))) == 0 || (i == n && run(
                    p,
                    0,
                    decode(toks, cs.take(i as int)),
                ) < p.len()),
            decreases n - i,
        {
            proof {
                assert(cs[i as int] < toks.len());
                lemma_row_step(p, toks, cs, i as int);
                lemma_run_bound(p, 0, decode(toks, cs.take(i + 1)));
            }
            let s: u8 = self.base[codes[i] as usize];
            i = i + 1;
            if s != 0 {
                if s == match_state {
                    proof {
                        lemma_row_accepts(p, toks, cs, i as int);
                    }
                    return true;
                }
                let mut state: u8 = s;
                let from: usize = i;
                while i < n && state != 0
                    invariant
                        from <= i,
                        self.wf(),
                        p == self.pattern@,
                        toks == self.tokens@,
                        cs == codes@,
                        n == cs.len(),
                        p.len() > 0,
                        match_state == p.len(),
                        codes_ok(cs, toks.len()),
                        i <= n,
                        state < p.len(),
                        state == run(p, 0, decode(toks, cs.take(i as int))),
                    decreases n - i,
                {
                    proof {
                        assert(cs[i as int] < toks.len());
                        lemma_row_step(p, toks, cs, i as int);
                        lemma_run_bound(p, 0, decode(toks, cs.take(i + 1)));
                    }
                    state = self.next_state(state, codes[i]);
                    i = i + 1;
                    if state == match_state {
                        proof {
                            lemma_row_accepts(p, toks, cs, i as int);
                        }
                        return true;
                    }
                }
            }
        }
        proof {
            assert(cs.take(i as int) =~= cs);
            lemma_row_decides(p, toks, cs);
        }
        false
    }

    /// Marks the tokens that some state below the full match is led on by.
    /// With `base_live` a token that leads state 0 on is marked too, and else
    /// one that leads it to the full match.
    fn mark_sparse(&self, marks: &mut Vec<bool>, Ghost(base_live): Ghost<bool>)
        requires
            self.wf(),
            self.pattern@.len() > 0,
            old(marks)@.len() == self.tokens@.len(),
            forall|t: int|
                0 <= t < self.tokens@.len() ==> #[trigger] old(marks)@[t] == (if base_live {
                    stirs_from(self.pattern@, self.tokens@[t], 1)
                } else {
                    inner_from(self.pattern@, self.tokens@[t], 1)
                }),
        ensures
            final(marks)@.len() == self.tokens@.len(),
            forall|t: int|
                0 <= t < self.tokens@.len() ==> #[trigger] final(marks)@[t] == (if base_live {
                    stirs(self.pattern@, self.tokens@[t])
                } else {
                    is_inner(self.pattern@, self.tokens@[t])
                }),
    {
        let ghost p = self.pattern@;
        let ghost toks = self.tokens@;
        let m: usize = self.match_state as usize;
        let mut s: usize = 1;
        while s < m
            invariant
                self.wf(),
                p == self.pattern@,
                toks == self.tokens@,
                m == p.len(),
                1 <= s <= m,
                marks@.len() == toks.len(),
                forall|t: int|
                    0 <= t < toks.len() ==> #[trigger] marks@[t] == (if base_live {
                        stirs_from(p, toks[t], s as int)
                    } else {
                        inner_from(p, toks[t], s as int)
                    }),
            decreases m - s,
        {
            assert(0 <= self.offsets@[s as int] <= self.offsets@[s + 1] <= self.sparse@.len());
            let lo: usize = self.offsets[s] as usize;
            let hi: usize = self.offsets[s + 1] as usize;
            let ghost g = self.group(s as int);
            let ghost before = marks@;
            let mut k: usize = lo;
            while k < hi
                invariant
                    self.wf(),
                    toks == self.tokens@,
                    lo <= k <= hi <= self.sparse@.len(),
                    g == self.sparse@.subrange(lo as int, hi as int),
                    is_group(g, p, toks, s as nat, toks.len() as int),
                    before.len() == toks.len(),
                    marks@.len() == toks.len(),
                    forall|t: int|
                        0 <= t < toks.len() ==> #[trigger] marks@[t] == (before[t] || (exists|l: int|
                            0 <= l < k - lo && #[trigger] item_has(g[l], t) && g[l].target != 0)),
                decreases hi - k,
            {
                let tr: SparseTransition = self.sparse[k];
                assert(g[k - lo] == tr);
                if tr.target != 0 {
                    let mut t: usize = tr.range.begin as usize;
                    let ghost inner_before = marks@;
                    while t <= tr.range.last as usize
                        invariant
                            tr.range.begin <= t <= tr.range.last + 1,
                            tr.range.last < toks.len(),
                            marks@.len() == toks.len(),
                            inner_before.len() == toks.len(),
                            forall|u: int|
                                0 <= u < toks.len() ==> #[trigger] marks@[u] == (inner_before[u]
                                    || (tr.range.begin <= u < t)),
                        decreases tr.range.last + 1 - t,
                    {
                        marks.set(t, true);
                        t = t + 1;
                    }
                    proof {
                        assert forall|u: int| 0 <= u < toks.len() implies #[trigger] marks@[u] == (
                        before[u] || (exists|l: int|
                            0 <= l < k + 1 - lo && #[trigger] item_has(g[l], u) && g[l].target
                                != 0)) by {
                            assert(inner_before[u] == (before[u] || (exists|l: int|
                                0 <= l < k - lo && #[trigger] item_has(g[l], u) && g[l].target
                                    != 0)));
                            assert(item_has(g[k - lo], u) <==> tr.range.begin <= u
                                <= tr.range.last);
                        }
                    }
                } else {
                    proof {
                        assert forall|u: int| 0 <= u < toks.len() implies #[trigger] marks@[u] == (
                        before[u] || (exists|l: int|
                            0 <= l < k + 1 - lo && #[trigger] item_has(g[l], u) && g[l].target
                                != 0)) by {}
                    }
                }
                k = k + 1;
            }
            proof {
                assert forall|t: int| 0 <= t < toks.len() implies #[trigger] marks@[t] == (
                if base_live {
                    stirs_from(p, toks[t], s + 1)
                } else {
                    inner_from(p, toks[t], s + 1)
                }) by {
                    let r = run(p, s as nat, toks[t]);
                    let r0 = run(p, 0, toks[t]);
                    let hit = exists|l: int|
                        0 <= l < g.len() && #[trigger] item_has(g[l], t) && g[l].target != 0;
                    assert(hit == (r != r0 && r != 0)) by {
                        assert(group_has(g, t) <==> r != r0);
                        if hit {
                            let l = choose|l: int|
                                0 <= l < g.len() && #[trigger] item_has(g[l], t) && g[l].target
                                    != 0;
                            assert(g[l].target == r);
                        }
                        if r != r0 && r != 0 {
                            let l = choose|l: int|
                                0 <= l < g.len() && #[trigger] item_has(g[l], t);
                            assert(g[l].target == r);
                        }
                    }
                    lemma_marks_step(p, toks[t], s as int);
                    let zero: int = 0;
                    assert(run(p, zero as nat, toks[t]) == r0);
                }
            }
            s = s + 1;
        }
    }

    /// Per-token flags for a two-code chain test: whether the token contains
    /// the whole needle, opens a partial match, or can go on with one.
    pub fn chain_table(&self) -> (r: Vec<u8>)
        requires
            self.wf(),
        ensures
            r@.len() == self.tokens().len(),
            forall|t: int|
                0 <= t < r@.len() ==> #[trigger] r@[t] == chain_flags(
                    self.pattern(),
                    self.tokens()[t],
                ),
    {
        let ghost p = self.pattern@;
        let ghost toks = self.tokens@;
        let n: usize = self.base.len();
        let m: u8 = self.match_state;
        if m == 0 {
            let out: Vec<u8> = vec![CHAIN_DEFINITE + CHAIN_OPEN + CHAIN_CONT; n];
            proof {
                assert forall|t: int| 0 <= t < out@.len() implies #[trigger] out@[t] == chain_flags(
                    p,
                    toks[t],
                ) by {
                    lemma_run_bound(p, 0, toks[t]);
                }
            }
            return out;
        }
        let mut marks: Vec<bool> = Vec::new();
        let mut t: usize = 0;
        while t < n
            invariant
                self.wf(),
                p == self.pattern@,
                toks == self.tokens@,
                p.len() > 0,
                n == toks.len(),
                t <= n,
                marks@.len() == t,
                forall|c: int| 0 <= c < t ==> #[trigger] marks@[c] == stirs_from(p, toks[c], 1),
            decreases n - t,
        {
            let d: u8 = self.base[t];
            proof {
                let zero: int = 0;
                assert(run(p, zero as nat, toks[t as int]) == d);
            }
            marks.push(d != 0);
            t = t + 1;
        }
        self.mark_sparse(&mut marks, Ghost(true));
        let mut out: Vec<u8> = Vec::new();
        let mut t: usize = 0;
        while t < n
            invariant
                self.wf(),
                p == self.pattern@,
                toks == self.tokens@,
                p.len() > 0,
                m == p.len(),
                n == toks.len(),
                t <= n,
                marks@.len() == n,
                forall|c: int| 0 <= c < n ==> #[trigger] marks@[c] == stirs(p, toks[c]),
                out@.len() == t,
                forall|c: int| 0 <= c < t ==> #[trigger] out@[c] == chain_flags(p, toks[c]),
            decreases n - t,
        {
            let b: u8 = self.base[t];
            let flags: u8 = if b == m {
                CHAIN_DEFINITE + CHAIN_OPEN + CHAIN_CONT
            } else if b != 0 {
                CHAIN_OPEN + CHAIN_CONT
            } else if marks[t] {
                CHAIN_CONT
            } else {
                0
            };
            out.push(flags);
            t = t + 1;
        }
        out
    }

    /// The contiguous id ranges of the tokens that can complete a match or go
    /// on with one, merged and ascending, or `None` where there are more than
    /// `max` of them. Every matching row holds such a token.
    pub fn inner_ranges(&self, max: usize) -> (r: Option<Vec<(Token, Token)>>)
        requires
            self.wf(),
        ensures
            exists|ranges: Seq<(Token, Token)>| #[trigger]
                intervals_ok(ranges) && (forall|t: int| #[trigger]
                    covered(ranges, t) <==> 0 <= t < self.tokens().len() && is_inner(
                        self.pattern(),
                        self.tokens()[t],
                    )) && match r {
                    Some(v) => v@ == ranges && ranges.len() <= max,
                    None => ranges.len() > max,
                },
    {
        let ghost p = self.pattern@;
        let ghost toks = self.tokens@;
        let n: usize = self.base.len();
        let m: u8 = self.match_state;
        let mut marks: Vec<bool> = Vec::new();
        let mut t: usize = 0;
        while t < n
            invariant
                self.wf(),
                p == self.pattern@,
                toks == self.tokens@,
                m == p.len(),
                n == toks.len(),
                t <= n,
                marks@.len() == t,
                forall|c: int| 0 <= c < t ==> #[trigger] marks@[c] == inner_from(p, toks[c], 1),
            decreases n - t,
        {
            proof {
                lemma_run_bound(p, 0, toks[t as int]);
            }
            marks.push(m == 0 || self.base[t] == m);
            t = t + 1;
        }
        if m > 0 {
            self.mark_sparse(&mut marks, Ghost(false));
        }
        proof {
            assert forall|c: int| 0 <= c < n implies #[trigger] marks@[c] == is_inner(
                p,
                toks[c],
            ) by {
                lemma_run_bound(p, 0, toks[c]);
            }
        }
        let words: usize = n / 64 + 1;
        let mut set: Vec<u64> = vec![0u64; words];
        proof {
            assert forall|i: int| 0 <= i < n implies !#[trigger] mask_bit(set@, i) by {
                lemma_mask_zero(set@, i);
            }
        }
        let mut t: usize = 0;
        while t < n
            invariant
                n == toks.len(),
                n <= MAX_TOKENS,
                t <= n,
                words == n / 64 + 1,
                set@.len() == words,
                marks@.len() == n,
                forall|i: int|
                    0 <= i < n ==> #[trigger] mask_bit(set@, i) == (i < t && marks@[i]),
            decreases n - t,
        {
            if marks[t] {
                set_bit(&mut set, t);
            }
            t = t + 1;
        }
        let merged = bitmap_to_intervals(set.as_slice(), n);
        proof {
            assert forall|c: int| #[trigger] covered(merged@, c) <==> 0 <= c < toks.len()
                && is_inner(p, toks[c]) by {
                if 0 <= c < n {
                    assert(mask_bit(set@, c) == marks@[c]);
                }
            }
            assert(intervals_ok(merged@));
        }
        if merged.len() > max {
            None
        } else {
            Some(merged)
        }
    }
}

proof fn lemma_marks_step(p: Seq<u8>, token: Seq<u8>, s: int)
    requires
        s >= 1,
    ensures
        stirs_from(p, token, s + 1) == (stirs_from(p, token, s) || run(p, s as nat, token) != 0),
        run(p, 0, token) != 0 ==> stirs_from(p, token, s),
        inner_from(p, token, s + 1) == (inner_from(p, token, s) || (run(p, s as nat, token) != run(
            p,
            0,
            token,
        ) && run(p, s as nat, token) != 0)),
{
    if stirs_from(p, token, s + 1) {
        let q = choose|q: int| 0 <= q < s + 1 && #[trigger] run(p, q as nat, token) != 0;
        if q < s {
            assert(stirs_from(p, token, s));
        }
    }
    if stirs_from(p, token, s) {
        let q = choose|q: int| 0 <= q < s && #[trigger] run(p, q as nat, token) != 0;
        assert(run(p, q as nat, token) != 0);
    }
    let zero: int = 0;
    assert(run(p, zero as nat, token) == run(p, 0, token));
    if inner_from(p, token, s + 1) && run(p, 0, token) != p.len() {
        let q = choose|q: int|
            1 <= q < s + 1 && #[trigger] run(p, q as nat, token) != run(p, 0, token) && run(
                p,
                q as nat,
                token,
            ) != 0;
        if q < s {
            assert(inner_from(p, token, s));
        }
    }
    if inner_from(p, token, s) && run(p, 0, token) != p.len() {
        let q = choose|q: int|
            1 <= q < s && #[trigger] run(p, q as nat, token) != run(p, 0, token) && run(
                p,
                q as nat,
                token,
            ) != 0;
        assert(run(p, q as nat, token) != run(p, 0, token));
    }
}

/// Every row that contains the needle holds a token that contains it whole, or
/// two codes in turn of which the first opens a partial match and the second
/// can go on with one.
#[verifier::spinoff_prover]
pub proof fn lemma_chain_is_necessary(p: Seq<u8>, tokens: Seq<Seq<u8>>, codes: Seq<Token>)
    requires
        p.len() > 0,
        codes_ok(codes, tokens.len()),
        contains(decode(tokens, codes), p),
    ensures
        (exists|i: int|
            0 <= i < codes.len() && run(p, 0, tokens[#[trigger] codes[i] as int]) == p.len()) || (
        exists|i: int|
            0 <= i < codes.len() - 1 && run(p, 0, tokens[#[trigger] codes[i] as int]) != 0 && stirs(
                p,
                tokens[codes[i + 1] as int],
            )),
{
    lemma_row_decides(p, tokens, codes);
    assert(codes.take(codes.len() as int) =~= codes);
    let e = first_accept(p, tokens, codes, codes.len() as int);
    lemma_row_start(p, tokens, codes);
    let i = last_zero(p, tokens, codes, e);
    lemma_row_step(p, tokens, codes, i);
    if i == e {
        assert(run(p, 0, tokens[codes[i] as int]) == p.len());
    } else {
        assert(run(p, 0, decode(tokens, codes.take(i + 1))) != 0);
        assert(run(p, 0, tokens[codes[i] as int]) != 0);
        lemma_row_step(p, tokens, codes, i + 1);
        let s = run(p, 0, decode(tokens, codes.take(i + 1))) as int;
        assert(run(p, s as nat, tokens[codes[i + 1] as int]) != 0) by {
            if i + 1 < e {
                assert(run(p, 0, decode(tokens, codes.take(i + 2))) != 0);
            }
        }
        assert(stirs(p, tokens[codes[i + 1] as int]));
    }
}

/// The last code up to `e` that is read in state 0.
proof fn last_zero(p: Seq<u8>, tokens: Seq<Seq<u8>>, codes: Seq<Token>, e: int) -> (i: int)
    requires
        0 <= e < codes.len(),
        run(p, 0, decode(tokens, codes.take(0))) == 0,
    ensures
        0 <= i <= e,
        run(p, 0, decode(tokens, codes.take(i))) == 0,
        forall|k: int| i < k <= e ==> #[trigger] run(p, 0, decode(tokens, codes.take(k))) != 0,
    decreases e,
{
    if run(p, 0, decode(tokens, codes.take(e))) == 0 {
        e
    } else {
        last_zero(p, tokens, codes, e - 1)
    }
}

/// Every row that contains the needle holds an inner token.
#[verifier::spinoff_prover]
pub proof fn lemma_inner_is_necessary(p: Seq<u8>, tokens: Seq<Seq<u8>>, codes: Seq<Token>)
    requires
        p.len() > 0,
        codes_ok(codes, tokens.len()),
        contains(decode(tokens, codes), p),
    ensures
        exists|i: int|
            0 <= i < codes.len() && is_inner(p, tokens[#[trigger] codes[i] as int]),
{
    lemma_row_decides(p, tokens, codes);
    assert(codes.take(codes.len() as int) =~= codes);
    let e = first_accept(p, tokens, codes, codes.len() as int);
    lemma_row_step(p, tokens, codes, e);
    let s = run(p, 0, decode(tokens, codes.take(e))) as int;
    assert(run(p, s as nat, tokens[codes[e] as int]) == p.len());
    assert(is_inner(p, tokens[codes[e] as int]));
}

/// The flags are bits of 1, 2 and 4. A token has the highest just when it
/// contains the needle, the lowest just when it ends with a part of the needle
/// from its start or contains it, and the middle one just when it can go on
/// with a match, from some state or from none.
pub proof fn lemma_flags_mean(p: Seq<u8>, token: Seq<u8>)
    requires
        p.len() > 0,
    ensures
        CHAIN_OPEN == 1,
        CHAIN_CONT == 2,
        CHAIN_DEFINITE == 4,
        chain_flags(p, token) == (if contains(token, p) {
            4int
        } else {
            0int
        }) + (if run(p, 0, token) != 0 {
            1int
        } else {
            0int
        }) + (if exists|s: int| 0 <= s < p.len() && #[trigger] run(p, s as nat, token) != 0 {
            2int
        } else {
            0int
        }),
{
    crate::text::lemma_run_is_state(p, token);
    crate::text::lemma_state_bound(p, token);
    let zero: int = 0;
    if run(p, 0, token) != 0 {
        assert(run(p, zero as nat, token) != 0);
    }
}

/// An inner token contains the needle, or leads some state elsewhere than to 0
/// and elsewhere than it leads state 0.
pub proof fn lemma_inner_means(p: Seq<u8>, token: Seq<u8>)
    requires
        p.len() > 0,
    ensures
        is_inner(p, token) <==> contains(token, p) || exists|s: int|
            1 <= s < p.len() && #[trigger] run(p, s as nat, token) != 0 && run(p, s as nat, token)
                != run(p, 0, token),
{
    crate::text::lemma_run_is_state(p, token);
    crate::text::lemma_state_bound(p, token);
}

/// Needles have up to 255 bytes.
pub proof fn lemma_needles_fit_a_byte()
    ensures
        MAX_NEEDLE_LEN == 255,
{
}

} // verus!
