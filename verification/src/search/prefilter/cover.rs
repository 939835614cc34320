//! The compiled probe cover: what the scan compares codes against.
//!
//! A cover carries the same set of ids in two shapes. The kernels compare each
//! code against every point and every range, so they want the lists; a scalar
//! scan wants one lookup per code, so it wants the table.

use crate::query::stats::occurrences;
use crate::search::index::frequency::{counts_exactly, TokenFrequencyIndexView};
use crate::types::{Token, TokenRange, MAX_TOKENS};
use crate::count::{lemma_count_next, lemma_count_none};
use vstd::prelude::*;
use vstd::set_lib::set_int_range;

verus! {

/// The ids from `a` to `b` are a maximal run of marked ids.
pub open spec fn is_run(table: Seq<bool>, a: int, b: int) -> bool {
    &&& 0 <= a <= b < table.len()
    &&& forall|t: int| a <= t <= b ==> #[trigger] table[t]
    &&& a > 0 ==> !table[a - 1]
    &&& b + 1 < table.len() ==> !table[b + 1]
}

/// The lists are the maximal runs of the table, ascending: the ids that are
/// runs of their own as points, the longer runs as ranges.
pub open spec fn are_runs(points: Seq<Token>, ranges: Seq<TokenRange>, table: Seq<bool>) -> bool {
    &&& forall|i: int, j: int| 0 <= i < j < points.len() ==> points[i] < points[j]
    &&& forall|i: int, j: int| 0 <= i < j < ranges.len() ==> ranges[i].last < ranges[j].begin
    &&& forall|t: Token| #[trigger] points.contains(t) <==> is_run(table, t as int, t as int)
    &&& forall|r: TokenRange| #[trigger]
        ranges.contains(r) <==> r.begin < r.last && is_run(table, r.begin as int, r.last as int)
}

/// The list holds the maximal runs of the table, ascending.
pub open spec fn lists_runs(runs: Seq<TokenRange>, table: Seq<bool>) -> bool {
    &&& forall|i: int, j: int| 0 <= i < j < runs.len() ==> runs[i].last < runs[j].begin
    &&& forall|r: TokenRange| #[trigger]
        runs.contains(r) <==> is_run(table, r.begin as int, r.last as int)
}

/// The answer for a run drops it, or keeps a part of it that is not empty.
pub open spec fn narrows(answer: Option<TokenRange>, run: TokenRange) -> bool {
    answer matches Some(r) ==> run.begin <= r.begin <= r.last <= run.last
}

/// The single ids among the answers, in order.
pub open spec fn points_of(answers: Seq<Option<TokenRange>>) -> Seq<Token>
    decreases answers.len(),
{
    if answers.len() == 0 {
        Seq::empty()
    } else {
        let before = points_of(answers.drop_last());
        match answers.last() {
            Some(r) if r.begin == r.last => before.push(r.begin),
            _ => before,
        }
    }
}

/// The answers of more than one id, in order.
pub open spec fn ranges_of(answers: Seq<Option<TokenRange>>) -> Seq<TokenRange>
    decreases answers.len(),
{
    if answers.len() == 0 {
        Seq::empty()
    } else {
        let before = ranges_of(answers.drop_last());
        match answers.last() {
            Some(r) if r.begin != r.last => before.push(r),
            _ => before,
        }
    }
}

/// Some answer keeps `t`.
pub open spec fn kept(answers: Seq<Option<TokenRange>>, t: int) -> bool {
    exists|k: int| 0 <= k < answers.len() && #[trigger] keeps(answers[k], t)
}

/// The answer keeps `t`.
pub open spec fn keeps(answer: Option<TokenRange>, t: int) -> bool {
    answer matches Some(r) && r.has(t)
}

proof fn lemma_kept_push(answers: Seq<Option<TokenRange>>, a: Option<TokenRange>, t: int)
    ensures
        kept(answers.push(a), t) <==> kept(answers, t) || keeps(a, t),
{
    let more = answers.push(a);
    if kept(answers, t) {
        let k = choose|k: int| 0 <= k < answers.len() && #[trigger] keeps(answers[k], t);
        assert(keeps(more[k], t));
    }
    if keeps(a, t) {
        assert(keeps(more[answers.len() as int], t));
    }
    if kept(more, t) {
        let k = choose|k: int| 0 <= k < more.len() && #[trigger] keeps(more[k], t);
        if k < answers.len() {
            assert(keeps(answers[k], t));
        }
    }
}

proof fn lemma_listed_push(points: Seq<Token>, ranges: Seq<TokenRange>, a: Token, r: TokenRange, t: int)
    ensures
        listed(points.push(a), ranges, t) <==> listed(points, ranges, t) || a == t,
        listed(points, ranges.push(r), t) <==> listed(points, ranges, t) || r.has(t),
{
    let ps = points.push(a);
    let rs = ranges.push(r);
    assert(ps[points.len() as int] == a);
    assert(rs[ranges.len() as int] == r);
    if exists|i: int| 0 <= i < points.len() && #[trigger] points[i] == t {
        let i = choose|i: int| 0 <= i < points.len() && #[trigger] points[i] == t;
        assert(ps[i] == t);
    }
    if exists|i: int| 0 <= i < ranges.len() && (#[trigger] ranges[i]).has(t) {
        let i = choose|i: int| 0 <= i < ranges.len() && (#[trigger] ranges[i]).has(t);
        assert(rs[i].has(t));
    }
    if exists|i: int| 0 <= i < ps.len() && #[trigger] ps[i] == t {
        let i = choose|i: int| 0 <= i < ps.len() && #[trigger] ps[i] == t;
        if i < points.len() {
            assert(points[i] == t);
        }
    }
    if exists|i: int| 0 <= i < rs.len() && (#[trigger] rs[i]).has(t) {
        let i = choose|i: int| 0 <= i < rs.len() && (#[trigger] rs[i]).has(t);
        if i < ranges.len() {
            assert(ranges[i].has(t));
        }
    }
}

/// The answers' probes hold what the answers keep, and each range an id.
proof fn lemma_answers_listed(answers: Seq<Option<TokenRange>>, t: int)
    requires
        forall|k: int|
            0 <= k < answers.len() ==> (#[trigger] answers[k] matches Some(r) ==> r.begin <= r.last),
    ensures
        listed(points_of(answers), ranges_of(answers), t) <==> kept(answers, t),
        forall|i: int|
            0 <= i < ranges_of(answers).len() ==> !(#[trigger] ranges_of(answers)[i]).nothing(),
    decreases answers.len(),
{
    if answers.len() > 0 {
        let before = answers.drop_last();
        let a = answers.last();
        assert(answers[answers.len() - 1] == a);
        assert forall|k: int| 0 <= k < before.len() implies (#[trigger] before[k] matches Some(r)
            ==> r.begin <= r.last) by {
            assert(before[k] == answers[k]);
        }
        lemma_answers_listed(before, t);
        assert(before.push(a) =~= answers);
        lemma_kept_push(before, a, t);
        if a is Some {
            lemma_listed_push(points_of(before), ranges_of(before), a->0.begin, a->0, t);
        }
    }
}

/// What holds of the lists where every run is kept whole.
proof fn lemma_all_kept(runs: Seq<TokenRange>, answers: Seq<Option<TokenRange>>)
    requires
        answers.len() == runs.len(),
        forall|k: int| 0 <= k < runs.len() ==> #[trigger] answers[k] == Some(runs[k]),
        forall|k: int| 0 <= k < runs.len() ==> (#[trigger] runs[k]).begin <= runs[k].last,
        forall|i: int, j: int| 0 <= i < j < runs.len() ==> runs[i].last < runs[j].begin,
    ensures
        forall|i: int, j: int|
            0 <= i < j < points_of(answers).len() ==> points_of(answers)[i] < points_of(answers)[j],
        forall|i: int, j: int|
            0 <= i < j < ranges_of(answers).len() ==> ranges_of(answers)[i].last < ranges_of(
                answers,
            )[j].begin,
        forall|i: int|
            0 <= i < points_of(answers).len() ==> #[trigger] points_of(answers)[i]
                <= runs.last().last,
        forall|i: int|
            0 <= i < ranges_of(answers).len() ==> (#[trigger] ranges_of(answers)[i]).last
                <= runs.last().last,
        forall|t: Token| #[trigger]
            points_of(answers).contains(t) <==> runs.contains(TokenRange { begin: t, last: t }),
        forall|r: TokenRange| #[trigger]
            ranges_of(answers).contains(r) <==> r.begin != r.last && runs.contains(r),
    decreases runs.len(),
{
    if runs.len() > 0 {
        let fewer = runs.drop_last();
        let before = answers.drop_last();
        let last = runs.last();
        assert(runs[runs.len() - 1] == last);
        assert(answers[runs.len() - 1] == Some(last));
        assert forall|k: int| 0 <= k < fewer.len() implies #[trigger] before[k] == Some(fewer[k]) by {
            assert(answers[k] == Some(runs[k]));
        }
        assert forall|k: int| 0 <= k < fewer.len() implies (#[trigger] fewer[k]).begin
            <= fewer[k].last by {
            assert(runs[k].begin <= runs[k].last);
        }
        lemma_all_kept(fewer, before);
        if fewer.len() > 0 {
            assert(runs[fewer.len() - 1].last < runs[runs.len() - 1].begin);
        }
        assert(fewer.push(last) =~= runs);
        lemma_contains_push(fewer, last);
        lemma_contains_push(points_of(before), last.begin);
        lemma_contains_push(ranges_of(before), last);
    }
}

/// Some point is `t`, or some range holds it.
pub open spec fn listed(points: Seq<Token>, ranges: Seq<TokenRange>, t: int) -> bool {
    ||| exists|i: int| 0 <= i < points.len() && #[trigger] points[i] == t
    ||| exists|i: int| 0 <= i < ranges.len() && (#[trigger] ranges[i]).has(t)
}

/// The maximal run that holds a marked id.
proof fn run_of(table: Seq<bool>, a: int, b: int) -> (r: (int, int))
    requires
        0 <= a <= b < table.len(),
        forall|t: int| a <= t <= b ==> #[trigger] table[t],
    ensures
        is_run(table, r.0, r.1),
        r.0 <= a,
        b <= r.1,
    decreases a + table.len() - b,
{
    if a > 0 && table[a - 1] {
        run_of(table, a - 1, b)
    } else if b + 1 < table.len() && table[b + 1] {
        run_of(table, a, b + 1)
    } else {
        (a, b)
    }
}

/// The runs of a table hold the marked ids.
pub proof fn lemma_runs_hold_members(
    points: Seq<Token>,
    ranges: Seq<TokenRange>,
    table: Seq<bool>,
    t: int,
)
    requires
        are_runs(points, ranges, table),
        table.len() <= MAX_TOKENS,
    ensures
        listed(points, ranges, t) <==> 0 <= t < table.len() && table[t],
{
    if 0 <= t < table.len() && table[t] {
        let (a, b) = run_of(table, t, t);
        if a == b {
            assert(points.contains(t as Token));
            let i = choose|i: int| 0 <= i < points.len() && points[i] == t as Token;
            assert(points[i] == t);
        } else {
            let r = TokenRange { begin: a as Token, last: b as Token };
            assert(ranges.contains(r));
            let i = choose|i: int| 0 <= i < ranges.len() && ranges[i] == r;
            assert(ranges[i].has(t));
        }
    }
    if exists|i: int| 0 <= i < points.len() && #[trigger] points[i] == t {
        let i = choose|i: int| 0 <= i < points.len() && #[trigger] points[i] == t;
        assert(points.contains(points[i]));
    }
    if exists|i: int| 0 <= i < ranges.len() && (#[trigger] ranges[i]).has(t) {
        let i = choose|i: int| 0 <= i < ranges.len() && (#[trigger] ranges[i]).has(t);
        assert(ranges.contains(ranges[i]));
    }
}

/// A run that ends inside another is that one.
proof fn lemma_run_here(table: Seq<bool>, begin: int, last: int, r: TokenRange)
    requires
        is_run(table, begin, last),
        table.len() <= MAX_TOKENS,
    ensures
        begin <= r.last <= last && is_run(table, r.begin as int, r.last as int) ==> r
            == (TokenRange { begin: begin as Token, last: last as Token }),
{
    if begin <= r.last <= last && is_run(table, r.begin as int, r.last as int) {
        if r.begin > begin {
            assert(table[r.begin - 1]);
        }
        if r.begin < begin {
            assert(table[begin - 1]);
        }
        if r.last < last {
            assert(table[r.last + 1]);
        }
    }
}

/// Clears the marks from `from` up to, but not including, `to`.
fn clear_span(table: &mut Vec<bool>, from: usize, to: usize)
    requires
        to <= old(table)@.len(),
    ensures
        final(table)@.len() == old(table)@.len(),
        forall|t: int|
            0 <= t < old(table)@.len() ==> #[trigger] final(table)@[t] == (old(table)@[t] && !(from
                <= t < to)),
{
    let ghost before = table@;
    let mut id: usize = from;
    while id < to
        invariant
            from <= id,
            to <= table@.len(),
            table@.len() == before.len(),
            forall|t: int|
                0 <= t < before.len() ==> #[trigger] table@[t] == (before[t] && !(from <= t < id && t
                    < to)),
        decreases to - id,
    {
        table.set(id, false);
        id = id + 1;
    }
}

/// A cover names no id just when its table marks none.
pub proof fn lemma_empty_marks_nothing(cover: &ProbeCover)
    requires
        cover.wf(),
        cover.proper(),
    ensures
        (cover.point_list().len() == 0 && cover.range_list().len() == 0) <==> (forall|t: int|
            0 <= t < cover.members().len() ==> !#[trigger] cover.members()[t]),
{
    if cover.point_list().len() > 0 {
        let t = cover.point_list()[0] as int;
        assert(cover.has(t));
        assert(cover.members()[t]);
    }
    if cover.range_list().len() > 0 {
        let r = cover.range_list()[0];
        assert(r.has(r.begin as int));
        assert(cover.has(r.begin as int));
        assert(cover.members()[r.begin as int]);
    }
    if cover.point_list().len() == 0 && cover.range_list().len() == 0 {
        assert forall|t: int| 0 <= t < cover.members().len() implies !#[trigger] cover.members()[t] by {
            assert(cover.has(t) <==> cover.members()[t]);
        }
    }
}

/// A probe cover over token ids.
///
/// The cover of a plan is sound: every row that contains the pattern holds a
/// covered token, so a scan for these ids drops no true match.
#[derive(Debug, Clone)]
pub struct ProbeCover {
    points: Vec<Token>,
    ranges: Vec<TokenRange>,
    table: Vec<bool>,
}

impl ProbeCover {
    /// The ids that are compared for equality.
    pub closed spec fn point_list(&self) -> Seq<Token> {
        self.points@
    }

    /// The ranges of ids.
    pub closed spec fn range_list(&self) -> Seq<TokenRange> {
        self.ranges@
    }

    /// The covered ids as a table.
    pub closed spec fn members(&self) -> Seq<bool> {
        self.table@
    }

    /// The cover holds token id `t`.
    pub open spec fn has(&self, t: int) -> bool {
        listed(self.point_list(), self.range_list(), t)
    }

    /// The two shapes describe the same ids.
    pub open spec fn wf(&self) -> bool {
        &&& self.members().len() <= MAX_TOKENS
        &&& forall|t: int| #[trigger]
            self.has(t) <==> 0 <= t < self.members().len() && self.members()[t]
    }

    /// Every range holds an id.
    pub open spec fn proper(&self) -> bool {
        forall|i: int| 0 <= i < self.range_list().len() ==> !(#[trigger] self.range_list()[i]).nothing()
    }

    /// Equality probes issued for every vector.
    pub fn points(&self) -> (r: &[Token])
        ensures
            r@ == self.point_list(),
    {
        self.points.as_slice()
    }

    /// Inclusive range probes issued for every vector.
    pub fn ranges(&self) -> (r: &[TokenRange])
        ensures
            r@ == self.range_list(),
    {
        self.ranges.as_slice()
    }

    /// The width of the table.
    pub fn table_len(&self) -> (n: usize)
        ensures
            n == self.members().len(),
    {
        self.table.len()
    }

    /// Whether the cover names no id at all: no row matches then.
    pub fn is_empty(&self) -> (r: bool)
        ensures
            r == (self.point_list().len() == 0 && self.range_list().len() == 0),
    {
        self.points.len() == 0 && self.ranges.len() == 0
    }

    /// Whether the cover holds `code`.
    pub fn contains(&self, code: Token) -> (r: bool)
        requires
            self.wf(),
        ensures
            r == self.has(code as int),
    {
        let id: usize = code as usize;
        assert(self.has(id as int) <==> 0 <= id < self.members().len() && self.members()[id as int]);
        id < self.table.len() && self.table[id]
    }

    /// The cover of given points and ranges, as they stand.
    pub fn new(points: Vec<Token>, ranges: Vec<TokenRange>) -> (r: ProbeCover)
        ensures
            r.wf(),
            r.point_list() == points@,
            r.range_list() == ranges@,
    {
        Self::over(points, ranges, MAX_TOKENS)
    }

    /// The cover of given points and ranges, as they stand, with a table
    /// of `width` ids.
    pub fn over(points: Vec<Token>, ranges: Vec<TokenRange>, width: usize) -> (r: ProbeCover)
        requires
            width <= MAX_TOKENS,
            forall|t: int| #[trigger] listed(points@, ranges@, t) ==> t < width,
        ensures
            r.wf(),
            r.point_list() == points@,
            r.range_list() == ranges@,
            r.members().len() == width,
    {
        let mut table: Vec<bool> = vec![false; width];
        let mut i: usize = 0;
        while i < points.len()
            invariant
                i <= points@.len(),
                forall|t: int| #[trigger] listed(points@, ranges@, t) ==> t < width,
                table@.len() == width,
                forall|t: int|
                    0 <= t < width ==> (#[trigger] table@[t] <==> exists|k: int|
                        0 <= k < i && #[trigger] points@[k] == t),
            decreases points@.len() - i,
        {
            assert(listed(points@, ranges@, points@[i as int] as int));
            let ghost before = table@;
            table.set(points[i] as usize, true);
            proof {
                assert forall|t: int| 0 <= t < width implies (#[trigger] table@[t] <==> exists|k: int|
                    0 <= k < i + 1 && #[trigger] points@[k] == t) by {
                    if before[t] {
                        let k = choose|k: int| 0 <= k < i && #[trigger] points@[k] == t;
                        assert(points@[k] == t);
                    }
                    assert(points@[i as int] == points@[i as int]);
                }
            }
            i = i + 1;
        }
        let ghost pointed = table@;
        let mut i: usize = 0;
        while i < ranges.len()
            invariant
                i <= ranges@.len(),
                forall|t: int| #[trigger] listed(points@, ranges@, t) ==> t < width,
                table@.len() == width,
                pointed.len() == width,
                forall|t: int|
                    0 <= t < width ==> (#[trigger] table@[t] <==> pointed[t] || exists|k: int|
                        0 <= k < i && (#[trigger] ranges@[k]).has(t)),
            decreases ranges@.len() - i,
        {
            proof {
                let last = ranges@[i as int].last as int;
                if !ranges@[i as int].nothing() {
                    assert(ranges@[i as int].has(last));
                    assert(listed(points@, ranges@, last));
                }
            }
            let ghost before = table@;
            mark_range(&mut table, ranges[i]);
            proof {
                assert forall|t: int| 0 <= t < width implies (#[trigger] table@[t] <==> pointed[t]
                    || exists|k: int| 0 <= k < i + 1 && (#[trigger] ranges@[k]).has(t)) by {
                    assert(before[t] <==> pointed[t] || exists|k: int|
                        0 <= k < i && (#[trigger] ranges@[k]).has(t));
                    assert(ranges@[i as int] == ranges@[i as int]);
                }
            }
            i = i + 1;
        }
        let r = ProbeCover { points, ranges, table };
        proof {
            assert forall|t: int| #[trigger] r.has(t) <==> 0 <= t < r.members().len()
                && r.members()[t] by {
                if 0 <= t < width {
                    assert(pointed[t] <==> exists|k: int|
                        0 <= k < points@.len() && #[trigger] points@[k] == t);
                }
                if r.has(t) {
                    assert(0 <= t < width);
                }
            }
        }
        r
    }

    /// The cover is what is left of `table` once each of its maximal runs, in
    /// order, was answered with the part of it to probe for, or with none.
    pub open spec fn is_narrowed(
        &self,
        table: Seq<bool>,
        runs: Seq<TokenRange>,
        answers: Seq<Option<TokenRange>>,
    ) -> bool {
        &&& lists_runs(runs, table)
        &&& answers.len() == runs.len()
        &&& self.point_list() == points_of(answers)
        &&& self.range_list() == ranges_of(answers)
        &&& self.members().len() == table.len()
        &&& forall|t: int|
            0 <= t < table.len() ==> (#[trigger] self.members()[t] <==> kept(answers, t))
    }

    /// Describes the ids that `table` marks, run by run: `probe_for` gets each
    /// maximal run and answers with the sub-run to probe for, or `None` to drop
    /// it. What it gives up is cleared from the table too, so that the two
    /// shapes keep describing the same ids.
    pub fn from_membership_with<F: Fn(TokenRange) -> Option<TokenRange>>(table: Vec<bool>, probe_for: F) -> (r: ProbeCover)
        requires
            table@.len() <= MAX_TOKENS,
            forall|run: TokenRange|
                is_run(table@, run.begin as int, run.last as int) ==> #[trigger] probe_for.requires(
                    (run,),
                ),
            forall|run: TokenRange, answer: Option<TokenRange>|
                is_run(table@, run.begin as int, run.last as int) && #[trigger] probe_for.ensures(
                    (run,),
                    answer,
                ) ==> narrows(answer, run),
        ensures
            r.wf(),
            r.proper(),
            exists|runs: Seq<TokenRange>, answers: Seq<Option<TokenRange>>| #[trigger]
                r.is_narrowed(table@, runs, answers) && forall|k: int|
                    0 <= k < runs.len() ==> probe_for.ensures((#[trigger] runs[k],), answers[k]),
    {
        let ghost tb = table@;
        let n: usize = table.len();
        let mut table = table;
        let mut points: Vec<Token> = Vec::new();
        let mut ranges: Vec<TokenRange> = Vec::new();
        let ghost mut runs: Seq<TokenRange> = Seq::empty();
        let ghost mut answers: Seq<Option<TokenRange>> = Seq::empty();
        let mut id: usize = 0;
        while id < n
            invariant
                n == tb.len(),
                n <= MAX_TOKENS,
                table@.len() == n,
                forall|run: TokenRange|
                    is_run(tb, run.begin as int, run.last as int)
                        ==> #[trigger] probe_for.requires((run,)),
                forall|run: TokenRange, answer: Option<TokenRange>|
                    is_run(tb, run.begin as int, run.last as int) && #[trigger] probe_for.ensures(
                        (run,),
                        answer,
                    ) ==> narrows(answer, run),
                id <= n,
                id == 0 || id == n || !tb[id - 1] || !tb[id as int],
                forall|i: int| 0 <= i < runs.len() ==> (#[trigger] runs[i]).last < id,
                forall|i: int, j: int| 0 <= i < j < runs.len() ==> runs[i].last < runs[j].begin,
                forall|r: TokenRange| #[trigger]
                    runs.contains(r) <==> r.last < id && is_run(
                        tb,
                        r.begin as int,
                        r.last as int,
                    ),
                answers.len() == runs.len(),
                forall|k: int|
                    0 <= k < runs.len() ==> probe_for.ensures((#[trigger] runs[k],), answers[k]),
                forall|k: int|
                    0 <= k < answers.len() ==> narrows(#[trigger] answers[k], runs[k]),
                points@ == points_of(answers),
                ranges@ == ranges_of(answers),
                forall|t: int| id <= t < n ==> #[trigger] table@[t] == tb[t],
                forall|t: int| 0 <= t < id ==> (#[trigger] table@[t] <==> kept(answers, t)),
            decreases n - id,
        {
            if !table[id] {
                proof {
                    assert(!tb[id as int]);
                    assert(!kept(answers, id as int)) by {
                        if kept(answers, id as int) {
                            let k = choose|k: int|
                                0 <= k < answers.len() && #[trigger] keeps(answers[k], id as int);
                            assert(narrows(answers[k], runs[k]));
                            assert(runs[k].last < id);
                        }
                    }
                }
                id = id + 1;
                continue;
            }
            let begin: usize = id;
            while id < n && table[id]
                invariant
                    n == tb.len(),
                    table@.len() == n,
                    begin <= id <= n,
                    begin < n,
                    tb[begin as int],
                    forall|t: int| begin <= t < n ==> #[trigger] table@[t] == tb[t],
                    forall|t: int| begin <= t < id ==> #[trigger] tb[t],
                decreases n - id,
            {
                assert(tb[id as int]);
                id = id + 1;
            }
            let last: usize = id - 1;
            proof {
                if id < n {
                    assert(!tb[id as int]);
                }
            }
            let run = TokenRange { begin: begin as Token, last: last as Token };
            assert(is_run(tb, begin as int, last as int));
            let ghost fewer = runs;
            let ghost before = answers;
            let ghost was = table@;
            let answer = probe_for(run);
            proof {
                runs = runs.push(run);
                answers = answers.push(answer);
                lemma_contains_push(fewer, run);
                assert(answers.drop_last() =~= before);
                assert(narrows(answer, run));
                assert forall|r: TokenRange| #[trigger] runs.contains(r) <==> r.last < id && is_run(
                    tb,
                    r.begin as int,
                    r.last as int,
                ) by {
                    lemma_run_here(tb, begin as int, last as int, r);
                }
                assert forall|i: int, j: int| 0 <= i < j < runs.len() implies runs[i].last
                    < runs[j].begin by {
                    if j == fewer.len() {
                        assert(fewer[i].last < begin);
                    }
                }
            }
            match answer {
                None => {
                    clear_span(&mut table, begin, id);
                },
                Some(probe) => {
                    clear_span(&mut table, begin, probe.begin as usize);
                    clear_span(&mut table, probe.last as usize + 1, id);
                    if probe.last == probe.begin {
                        points.push(probe.begin);
                    } else {
                        ranges.push(probe);
                    }
                },
            }
            proof {
                assert forall|t: int| 0 <= t < id implies (#[trigger] table@[t] <==> kept(
                    answers,
                    t,
                )) by {
                    lemma_kept_push(before, answer, t);
                    if t < begin {
                        assert(was[t] <==> kept(before, t));
                    } else {
                        assert(was[t] == tb[t]);
                        if kept(before, t) {
                            let k = choose|k: int|
                                0 <= k < before.len() && #[trigger] keeps(before[k], t);
                            assert(narrows(before[k], fewer[k]));
                            assert(fewer[k].last < begin);
                        }
                    }
                }
            }
        }
        let r = ProbeCover { points, ranges, table };
        proof {
            assert forall|k: int| 0 <= k < answers.len() implies (#[trigger] answers[k] matches Some(
                a,
            ) ==> a.begin <= a.last) by {
                assert(narrows(answers[k], runs[k]));
            }
            lemma_answers_listed(answers, 0);
            assert forall|t: int| #[trigger] r.has(t) <==> 0 <= t < r.members().len()
                && r.members()[t] by {
                lemma_answers_listed(answers, t);
                if kept(answers, t) {
                    let k = choose|k: int| 0 <= k < answers.len() && #[trigger] keeps(answers[k], t);
                    assert(narrows(answers[k], runs[k]));
                    assert(runs[k].last < n);
                }
            }
            assert forall|x: TokenRange| #[trigger] runs.contains(x) <==> is_run(
                tb,
                x.begin as int,
                x.last as int,
            ) by {}
            assert(r.is_narrowed(tb, runs, answers));
        }
        r
    }

    /// Describes the ids that `table` marks with as few probes as they can be
    /// described: every maximal run becomes one range, or a point when it is a
    /// single id.
    pub fn from_membership(table: Vec<bool>) -> (r: ProbeCover)
        requires
            table@.len() <= MAX_TOKENS,
        ensures
            r.wf(),
            r.proper(),
            are_runs(r.point_list(), r.range_list(), table@),
            r.members() == table@,
    {
        let ghost tb = table@;
        let whole = |run: TokenRange| -> (answer: Option<TokenRange>)
            ensures
                answer == Some(run),
            { Some(run) };
        let r = ProbeCover::from_membership_with(table, whole);
        proof {
            let (runs, answers) = choose|runs: Seq<TokenRange>, answers: Seq<Option<TokenRange>>|
                #[trigger] r.is_narrowed(tb, runs, answers) && forall|k: int|
                    0 <= k < runs.len() ==> whole.ensures((#[trigger] runs[k],), answers[k]);
            assert forall|k: int| 0 <= k < runs.len() implies #[trigger] answers[k] == Some(
                runs[k],
            ) by {
                assert(whole.ensures((runs[k],), answers[k]));
            }
            assert forall|k: int| 0 <= k < runs.len() implies (#[trigger] runs[k]).begin
                <= runs[k].last by {
                assert(runs.contains(runs[k]));
            }
            lemma_all_kept(runs, answers);
            assert forall|t: int| 0 <= t < tb.len() implies r.members()[t] == tb[t] by {
                if tb[t] {
                    let (a, b) = run_of(tb, t, t);
                    let run = TokenRange { begin: a as Token, last: b as Token };
                    assert(runs.contains(run));
                    let k = choose|k: int| 0 <= k < runs.len() && runs[k] == run;
                    assert(keeps(answers[k], t));
                }
                if kept(answers, t) {
                    let k = choose|k: int| 0 <= k < answers.len() && #[trigger] keeps(answers[k], t);
                    assert(runs.contains(runs[k]));
                }
            }
            assert(r.members() =~= tb);
        }
        r
    }

    /// The cover of the union of some runs, which may overlap and abut.
    pub fn from_runs(runs: Vec<TokenRange>) -> (r: ProbeCover)
        ensures
            r.wf(),
            r.proper(),
            forall|t: int| #[trigger]
                r.has(t) <==> exists|k: int| 0 <= k < runs@.len() && (#[trigger] runs@[k]).has(t),
            are_runs(r.point_list(), r.range_list(), r.members()),
    {
        let union = ProbeCover::new(Vec::new(), runs);
        let r = ProbeCover::from_membership(union.table);
        proof {
            assert forall|t: int| #[trigger] r.has(t) <==> exists|k: int|
                0 <= k < runs@.len() && (#[trigger] runs@[k]).has(t) by {
                assert(union.has(t) <==> 0 <= t < union.members().len() && union.members()[t]);
            }
        }
        r
    }
}

/// The summed frequency of the marked ids below `k`.
pub open spec fn members_sum(sums: Seq<u32>, members: Seq<bool>, k: int) -> int
    decreases k,
{
    if k <= 0 {
        0
    } else {
        members_sum(sums, members, k - 1) + if members[k - 1] {
            sums[k] - sums[k - 1]
        } else {
            0
        }
    }
}

/// The ids that both a table and prefix sums have an entry for.
pub open spec fn shared_ids(sums: Seq<u32>, members: Seq<bool>) -> int {
    if members.len() < sums.len() {
        members.len() as int
    } else {
        sums.len() - 1
    }
}

impl ProbeCover {
    /// The summed frequency of the covered ids. Points and ranges are
    /// disjoint, so each covered occurrence is counted once.
    pub fn frequency(&self, frequencies: TokenFrequencyIndexView<'_>) -> (r: u32)
        requires
            self.members().len() <= MAX_TOKENS,
            frequencies.wf(),
        ensures
            r == members_sum(
                frequencies.sums(),
                self.members(),
                shared_ids(frequencies.sums(), self.members()),
            ),
    {
        let ghost sums = frequencies.sums();
        let ghost members = self.members();
        let count: usize = frequencies.num_tokens();
        let mut sum: u32 = 0;
        let mut id: usize = 0;
        while id < self.table.len() && id < count
            invariant
                frequencies.wf(),
                sums == frequencies.sums(),
                members == self.members(),
                members == self.table@,
                members.len() <= MAX_TOKENS,
                count == sums.len() - 1,
                id <= members.len(),
                id <= count,
                sum == members_sum(sums, members, id as int),
                sum <= sums[id as int],
            decreases count - id,
        {
            assert(sums[id as int] <= sums[id + 1]);
            if self.table[id] {
                sum = sum + frequencies.frequency(id as Token);
            }
            id = id + 1;
        }
        sum
    }
}

/// How many of the first `k` codes the table marks.
pub open spec fn marked_codes(members: Seq<bool>, codes: Seq<Token>, k: int) -> int
    decreases k,
{
    if k <= 0 {
        0
    } else {
        marked_codes(members, codes, k - 1) + if codes[k - 1] < members.len()
            && members[codes[k - 1] as int] {
            1int
        } else {
            0int
        }
    }
}

/// The occurrences of the marked ids below `t` among the first `k` codes.
spec fn marked_below(members: Seq<bool>, codes: Seq<Token>, t: int, k: int) -> int
    decreases t,
{
    if t <= 0 {
        0
    } else {
        marked_below(members, codes, t - 1, k) + if members[t - 1] {
            occurrences(codes, t - 1, k as nat) as int
        } else {
            0
        }
    }
}

proof fn lemma_marked_below(members: Seq<bool>, codes: Seq<Token>, t: int, k: int)
    requires
        0 <= t <= members.len(),
        0 <= k < codes.len(),
    ensures
        marked_below(members, codes, t, k + 1) == marked_below(members, codes, t, k) + (if codes[k]
            < t && members[codes[k] as int] {
            1int
        } else {
            0int
        }),
    decreases t,
{
    if t > 0 {
        lemma_marked_below(members, codes, t - 1, k);
        assert(occurrences(codes, t - 1, (k + 1) as nat) == occurrences(codes, t - 1, k as nat) + (
        if codes[k] == t - 1 {
            1int
        } else {
            0int
        }));
    }
}

proof fn lemma_marked_total(members: Seq<bool>, codes: Seq<Token>, k: int)
    requires
        0 <= k <= codes.len(),
    ensures
        marked_below(members, codes, members.len() as int, k) == marked_codes(members, codes, k),
    decreases k,
{
    if k > 0 {
        lemma_marked_total(members, codes, k - 1);
        lemma_marked_below(members, codes, members.len() as int, k - 1);
    } else {
        lemma_marked_none(members, codes, members.len() as int);
    }
}

proof fn lemma_marked_none(members: Seq<bool>, codes: Seq<Token>, t: int)
    ensures
        marked_below(members, codes, t, 0) == 0,
    decreases t,
{
    if t > 0 {
        lemma_marked_none(members, codes, t - 1);
    }
}

/// Prefix sums that count the codes exactly sum up, over the marked ids, to
/// the number of codes that are marked.
pub proof fn lemma_sum_counts_codes(sums: Seq<u32>, members: Seq<bool>, codes: Seq<Token>)
    requires
        counts_exactly(sums, codes),
        members.len() < sums.len(),
    ensures
        members_sum(sums, members, shared_ids(sums, members)) == marked_codes(
            members,
            codes,
            codes.len() as int,
        ),
{
    lemma_marked_total(members, codes, codes.len() as int);
    lemma_sum_is_below(sums, members, codes, members.len() as int);
}

proof fn lemma_sum_is_below(sums: Seq<u32>, members: Seq<bool>, codes: Seq<Token>, t: int)
    requires
        counts_exactly(sums, codes),
        0 <= t <= members.len() < sums.len(),
    ensures
        members_sum(sums, members, t) == marked_below(members, codes, t, codes.len() as int),
    decreases t,
{
    if t > 0 {
        lemma_sum_is_below(sums, members, codes, t - 1);
        assert(sums[(t - 1) + 1] - sums[t - 1] == occurrences(codes, t - 1, codes.len()));
    }
}

/// Marks the ids of a range.
pub fn mark_range(table: &mut Vec<bool>, range: TokenRange)
    requires
        !range.nothing() ==> range.last < old(table)@.len(),
    ensures
        final(table)@.len() == old(table)@.len(),
        forall|t: int|
            0 <= t < old(table)@.len() ==> #[trigger] final(table)@[t] == (old(table)@[t]
                || range.has(t)),
{
    let ghost before = table@;
    let mut id: usize = range.begin as usize;
    while id <= range.last as usize
        invariant
            !range.nothing() ==> range.last < before.len(),
            range.begin <= id,
            !range.nothing() ==> id <= range.last + 1,
            table@.len() == before.len(),
            forall|t: int|
                0 <= t < before.len() ==> #[trigger] table@[t] == (before[t] || (range.begin <= t
                    < id && t <= range.last)),
        decreases range.last + 1 - id,
    {
        table.set(id, true);
        id = id + 1;
    }
}

proof fn lemma_contains_push<A>(s: Seq<A>, a: A)
    ensures
        forall|x: A| #[trigger] s.push(a).contains(x) <==> s.contains(x) || x == a,
{
    let t = s.push(a);
    assert forall|x: A| #[trigger] t.contains(x) <==> s.contains(x) || x == a by {
        if t.contains(x) {
            let i = choose|i: int| 0 <= i < t.len() && t[i] == x;
            if i < s.len() {
                assert(s[i] == x);
            }
        }
        if s.contains(x) {
            let i = choose|i: int| 0 <= i < s.len() && s[i] == x;
            assert(t[i] == x);
        }
        assert(t[s.len() as int] == a);
    }
}

/// Distinct numbers below `b` are at most `b`.
pub proof fn lemma_injection(f: Seq<int>, b: int)
    requires
        forall|i: int| 0 <= i < f.len() ==> 0 <= #[trigger] f[i] < b,
        forall|i: int, j: int| 0 <= i < j < f.len() ==> f[i] != f[j],
        b >= 0,
    ensures
        f.len() <= b,
    decreases b,
{
    if f.len() > 0 {
        assert(f[0] < b);
        if exists|i: int| 0 <= i < f.len() && #[trigger] f[i] == b - 1 {
            let i = choose|i: int| 0 <= i < f.len() && #[trigger] f[i] == b - 1;
            let g = f.remove(i);
            assert forall|j: int| 0 <= j < g.len() implies 0 <= #[trigger] g[j] < b - 1 by {
                if j < i {
                    assert(g[j] == f[j]);
                } else {
                    assert(g[j] == f[j + 1]);
                }
            }
            assert forall|j: int, k: int| 0 <= j < k < g.len() implies g[j] != g[k] by {
                let j2 = if j < i {
                    j
                } else {
                    j + 1
                };
                let k2 = if k < i {
                    k
                } else {
                    k + 1
                };
                assert(g[j] == f[j2] && g[k] == f[k2]);
            }
            lemma_injection(g, b - 1);
        } else {
            assert forall|j: int| 0 <= j < f.len() implies 0 <= #[trigger] f[j] < b - 1 by {}
            lemma_injection(f, b - 1);
        }
    }
}

/// Where run `k` of the two lists begins.
spec fn run_start(points: Seq<Token>, ranges: Seq<TokenRange>, k: int) -> int {
    if k < points.len() {
        points[k] as int
    } else {
        ranges[k - points.len()].begin as int
    }
}

/// Probe `o` of the two lists holds `t`.
spec fn probe_holds(points: Seq<Token>, ranges: Seq<TokenRange>, o: int, t: int) -> bool {
    if o < points.len() {
        points[o] == t
    } else {
        ranges[o - points.len()].has(t)
    }
}

/// The maximal runs are the fewest probes that describe the marked ids.
pub proof fn lemma_runs_are_fewest(
    points: Seq<Token>,
    ranges: Seq<TokenRange>,
    table: Seq<bool>,
    other_points: Seq<Token>,
    other_ranges: Seq<TokenRange>,
)
    requires
        are_runs(points, ranges, table),
        forall|t: int| #[trigger]
            listed(other_points, other_ranges, t) <==> 0 <= t < table.len() && table[t],
    ensures
        points.len() + ranges.len() <= other_points.len() + other_ranges.len(),
{
    let a = points.len() + ranges.len();
    let b = other_points.len() + other_ranges.len();
    let f = Seq::new(
        a,
        |k: int|
            choose|o: int|
                0 <= o < b && probe_holds(
                    other_points,
                    other_ranges,
                    o,
                    run_start(points, ranges, k),
                ),
    );
    assert forall|k: int| 0 <= k < a implies ({
        let s = #[trigger] run_start(points, ranges, k);
        &&& 0 <= s < table.len()
        &&& table[s]
        &&& s > 0 ==> !table[s - 1]
        &&& 0 <= f[k] < b
        &&& probe_holds(other_points, other_ranges, f[k], s)
    }) by {
        let s = run_start(points, ranges, k);
        if k < points.len() {
            assert(points.contains(points[k]));
        } else {
            assert(ranges.contains(ranges[k - points.len()]));
        }
        assert(table[s]);
        assert(listed(other_points, other_ranges, s));
        if exists|i: int| 0 <= i < other_points.len() && #[trigger] other_points[i] == s {
            let i = choose|i: int| 0 <= i < other_points.len() && #[trigger] other_points[i] == s;
            assert(probe_holds(other_points, other_ranges, i, s));
        } else {
            let i = choose|i: int|
                0 <= i < other_ranges.len() && (#[trigger] other_ranges[i]).has(s);
            assert(probe_holds(other_points, other_ranges, i + other_points.len(), s));
        }
    }
    assert forall|i: int, j: int| 0 <= i < j < f.len() implies f[i] != f[j] by {
        let s = run_start(points, ranges, i);
        let t = run_start(points, ranges, j);
        lemma_starts_differ(points, ranges, table, i, j);
        if f[i] == f[j] {
            let o = f[i];
            let lo = if s < t {
                s
            } else {
                t
            };
            let hi = if s < t {
                t
            } else {
                s
            };
            if o >= other_points.len() {
                let r = other_ranges[o - other_points.len()];
                assert(r.has(hi - 1));
                assert(listed(other_points, other_ranges, hi - 1));
            }
        }
    }
    assert forall|k: int| 0 <= k < f.len() implies 0 <= #[trigger] f[k] < b by {
        let s = run_start(points, ranges, k);
    }
    lemma_injection(f, b as int);
}

/// Two runs begin at two ids.
proof fn lemma_starts_differ(
    points: Seq<Token>,
    ranges: Seq<TokenRange>,
    table: Seq<bool>,
    i: int,
    j: int,
)
    requires
        are_runs(points, ranges, table),
        0 <= i < j < points.len() + ranges.len(),
    ensures
        run_start(points, ranges, i) != run_start(points, ranges, j),
{
    if j < points.len() {
        assert(points[i] < points[j]);
    } else {
        let r = ranges[j - points.len()];
        assert(ranges.contains(r));
        if i < points.len() {
            assert(points.contains(points[i]));
            if points[i] == r.begin {
                assert(table[r.begin + 1]);
            }
        } else {
            let q = ranges[i - points.len()];
            assert(ranges.contains(q));
            assert(q.last < r.begin);
        }
    }
}

proof fn lemma_marked_grows(members: Seq<bool>, codes: Seq<Token>, a: int, b: int)
    requires
        0 <= a <= b <= codes.len(),
    ensures
        marked_codes(members, codes, a) <= marked_codes(members, codes, b),
    decreases b,
{
    if a < b {
        lemma_marked_grows(members, codes, a, b - 1);
    }
}

/// Position `i` holds a marked code.
pub open spec fn is_marked(members: Seq<bool>, codes: Seq<Token>, i: int) -> bool {
    codes[i] < members.len() && members[codes[i] as int]
}

/// A marked position between two others counts.
pub proof fn lemma_marked_once(members: Seq<bool>, codes: Seq<Token>, a: int, b: int, i: int)
    requires
        0 <= a <= i < b <= codes.len(),
        is_marked(members, codes, i),
    ensures
        marked_codes(members, codes, a) + 1 <= marked_codes(members, codes, b),
    decreases b,
{
    if i == b - 1 {
        lemma_marked_grows(members, codes, a, i);
    } else {
        lemma_marked_once(members, codes, a, b - 1, i);
    }
}

/// Between two positions with at most one marked one, at most one counts.
pub proof fn lemma_marked_at_most(members: Seq<bool>, codes: Seq<Token>, a: int, b: int)
    requires
        0 <= a <= b <= codes.len(),
        forall|i: int, j: int|
            a <= i < j < b ==> !(#[trigger] is_marked(members, codes, i) && #[trigger] is_marked(
                members,
                codes,
                j,
            )),
    ensures
        marked_codes(members, codes, b) <= marked_codes(members, codes, a) + 1,
        (forall|i: int| a <= i < b ==> !#[trigger] is_marked(members, codes, i)) ==> marked_codes(
            members,
            codes,
            b,
        ) == marked_codes(members, codes, a),
    decreases b,
{
    if a < b {
        lemma_marked_at_most(members, codes, a, b - 1);
        assert(marked_codes(members, codes, b) == marked_codes(members, codes, b - 1) + (
        if is_marked(members, codes, b - 1) {
            1int
        } else {
            0int
        }));
        if is_marked(members, codes, b - 1) {
            assert forall|i: int| a <= i < b - 1 implies !#[trigger] is_marked(members, codes, i) by {
                if is_marked(members, codes, i) {
                    assert(is_marked(members, codes, b - 1));
                }
            }
        }
    }
}

/// A cover holds an id just when some point is the id, or the id is between the
/// ends of some range.
pub proof fn lemma_cover_means(cover: &ProbeCover, t: int)
    ensures
        cover.has(t) <==> (exists|i: int|
            0 <= i < cover.point_list().len() && #[trigger] cover.point_list()[i] == t) || (exists|
            i: int,
        |
            0 <= i < cover.range_list().len() && (#[trigger] cover.range_list()[i]).begin <= t && t
                <= cover.range_list()[i].last),
{
    let rs = cover.range_list();
    if exists|i: int| 0 <= i < rs.len() && (#[trigger] rs[i]).has(t) {
        let i = choose|i: int| 0 <= i < rs.len() && (#[trigger] rs[i]).has(t);
        assert(rs[i].begin <= t && t <= rs[i].last);
    }
    if exists|i: int| 0 <= i < rs.len() && (#[trigger] rs[i]).begin <= t && t <= rs[i].last {
        let i = choose|i: int|
            0 <= i < rs.len() && (#[trigger] rs[i]).begin <= t && t <= rs[i].last;
        assert(rs[i].has(t));
    }
}

/// A maximal run is marked from its first id to its last, and not just outside.
pub proof fn lemma_run_means(table: Seq<bool>, a: int, b: int)
    ensures
        is_run(table, a, b) <==> {
            &&& 0 <= a <= b < table.len()
            &&& forall|t: int| a <= t <= b ==> #[trigger] table[t]
            &&& a == 0 || !table[a - 1]
            &&& b == table.len() - 1 || !table[b + 1]
        },
{
}

/// One answer more adds a point where it keeps one id, a range where it keeps
/// more, and nothing where it drops the run.
pub proof fn lemma_answers_add_up(answers: Seq<Option<TokenRange>>, a: Option<TokenRange>, t: int)
    ensures
        points_of(Seq::empty()) == Seq::<Token>::empty(),
        ranges_of(Seq::empty()) == Seq::<TokenRange>::empty(),
        points_of(answers.push(a)) == (match a {
            Some(r) => if r.begin == r.last {
                points_of(answers).push(r.begin)
            } else {
                points_of(answers)
            },
            None => points_of(answers),
        }),
        ranges_of(answers.push(a)) == (match a {
            Some(r) => if r.begin == r.last {
                ranges_of(answers)
            } else {
                ranges_of(answers).push(r)
            },
            None => ranges_of(answers),
        }),
        kept(answers.push(a), t) <==> kept(answers, t) || (a is Some && a->0.begin <= t
            <= a->0.last),
        !kept(Seq::empty(), t),
{
    assert(answers.push(a).drop_last() =~= answers);
    lemma_kept_push(answers, a, t);
}

/// Marked codes are counted one by one.
pub proof fn lemma_marked_counted(members: Seq<bool>, codes: Seq<Token>, k: nat)
    ensures
        marked_codes(members, codes, k as int) == set_int_range(0, k as int).filter(
            |i: int| codes[i] < members.len() && members[codes[i] as int],
        ).len(),
    decreases k,
{
    let f = |i: int| codes[i] < members.len() && members[codes[i] as int];
    if k == 0 {
        lemma_count_none(f);
    } else {
        lemma_marked_counted(members, codes, (k - 1) as nat);
        lemma_count_next(k - 1, f);
    }
}

/// The frequency of a cover, by sums that count a stream exactly, is the number
/// of codes that it covers.
pub proof fn lemma_frequency_counts_covered_codes(
    cover: &ProbeCover,
    sums: Seq<u32>,
    codes: Seq<Token>,
)
    requires
        cover.wf(),
        counts_exactly(sums, codes),
        cover.members().len() < sums.len(),
    ensures
        members_sum(sums, cover.members(), shared_ids(sums, cover.members())) == set_int_range(
            0,
            codes.len() as int,
        ).filter(|i: int| cover.has(codes[i] as int)).len(),
{
    let ms = cover.members();
    let n = codes.len() as int;
    lemma_sum_counts_codes(sums, ms, codes);
    lemma_marked_counted(ms, codes, codes.len());
    assert(set_int_range(0, n).filter(|i: int| codes[i] < ms.len() && ms[codes[i] as int])
        =~= set_int_range(0, n).filter(|i: int| cover.has(codes[i] as int))) by {
        assert forall|i: int|
            (#[trigger] codes[i] < ms.len() && ms[codes[i] as int]) == cover.has(codes[i] as int) by {
            assert(cover.has(codes[i] as int) <==> 0 <= codes[i] < ms.len()
                && ms[codes[i] as int]);
        }
    }
}

/// Runs are listed in ascending order, those of a single id as points and the
/// longer ones as ranges, all of them and nothing else.
pub proof fn lemma_run_lists_mean(
    points: Seq<Token>,
    ranges: Seq<TokenRange>,
    runs: Seq<TokenRange>,
    table: Seq<bool>,
)
    ensures
        are_runs(points, ranges, table) ==> {
            &&& forall|i: int, j: int| 0 <= i < j < points.len() ==> points[i] < points[j]
            &&& forall|i: int, j: int| 0 <= i < j < ranges.len() ==> ranges[i].last < ranges[j].begin
            &&& forall|t: Token| #[trigger]
                points.contains(t) <==> is_run(table, t as int, t as int)
            &&& forall|r: TokenRange| #[trigger]
                ranges.contains(r) <==> r.begin < r.last && is_run(
                    table,
                    r.begin as int,
                    r.last as int,
                )
        },
        lists_runs(runs, table) ==> {
            &&& forall|i: int, j: int| 0 <= i < j < runs.len() ==> runs[i].last < runs[j].begin
            &&& forall|r: TokenRange| #[trigger]
                runs.contains(r) <==> is_run(table, r.begin as int, r.last as int)
        },
{
}

/// Summed frequencies add up over the marked ids, as far as the sums go.
pub proof fn lemma_member_frequencies_add_up(sums: Seq<u32>, members: Seq<bool>, k: int)
    requires
        0 <= k,
    ensures
        members_sum(sums, members, 0) == 0,
        members_sum(sums, members, k + 1) == members_sum(sums, members, k) + (if members[k] {
            sums[k + 1] - sums[k]
        } else {
            0
        }),
        sums.len() >= 1 ==> shared_ids(sums, members) == (if members.len() < sums.len() {
            members.len() as int
        } else {
            sums.len() - 1
        }),
{
}

} // verus!
