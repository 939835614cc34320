//! Class-compressed token automaton: sparse-alphabet reduction, pair lookup,
//! and walks over fixed-width transition rows.
//!
//! The dense token automaton has very few distinct columns: most tokens lead
//! every state to the same destination. Grouping tokens by their transition
//! column gives a small class alphabet, over which a transition table has tens
//! of bytes and a table over pairs of classes is feasible: one lookup then
//! advances two codes.

use crate::bits::{get_bit, mask_bit, set_bit, words_for};
use crate::dictionary::{codes_ok, decode, dict_ok, row_contains, token_at, token_count, tokens_of};
use crate::query::dfa::{
    byte_automaton, is_automaton, lemma_index_step, lemma_row_accepts, lemma_row_decides,
    walk_token, MAX_PATTERN_LEN,
};
use crate::query::filter::{combined_mask, count_set_bits, next_set_bit, window, Filter};
use crate::query::scan::{rows_masked, rows_unfiltered, windowed, RowWalk};
use crate::query::sparse::{
    lemma_empty_pattern, lemma_row_windowed, lemma_token_len, lemma_window_stirs,
};
use crate::query::window::{
    combo_depth, combo_of, lemma_longest, longest_stirring, stirring_count, stirring_window, stirs,
    MAX_COMBO,
};
use crate::rows::{
    all_rows, bound_at, bounds, count_rows, gallop, lemma_bound_in, lemma_selected_skip, row_codes,
    row_count, rows_ok, selected, span, Offset,
};
use crate::text::{
    contains, lemma_contains_empty, lemma_run_absorbing, lemma_run_bound, lemma_run_first, run,
    step,
};
use crate::types::{Token, MAX_TOKENS};
use crate::count::{lemma_count_next, lemma_count_none};
use vstd::prelude::*;
use vstd::set_lib::set_int_range;

verus! {

/// Cap on the size of the pair table.
pub const MAX_TRANS2_BYTES: usize = 4194304;

/// Entries of the byte-wide class map: one per possible code, padded.
pub const CLASS_MAP_LEN: usize = 65540;

/// How a compiled [`ClassSearcher`] walks a row.
#[derive(Debug, Clone, Copy, PartialEq, Eq, Structural)]
pub enum Walk {
    /// One class-table lookup per code.
    Class,
    /// One pair-table lookup per two codes.
    Pair,
    /// One lookup in a 64-byte transition row per code, for at most 64 states
    /// and machines with AVX-512 VBMI.
    Hyperflex,
    /// One lookup in a 64-byte transition row per two codes.
    HyperflexPair,
}

/// Compile-time shape of a [`ClassSearcher`].
#[derive(Debug, Clone, Copy, PartialEq, Eq, Structural)]
pub struct ClassInfo {
    /// Distinct transition columns.
    pub nclasses: usize,
    /// States that some token leads to, the first and the full match included.
    pub nstates: usize,
    /// Bytes of the pair table, 0 when not built.
    pub trans2_bytes: usize,
    /// Codes of a class other than the one that leads every state to 0.
    pub interesting: usize,
    /// Consecutive such codes that a match must contain.
    pub combo: usize,
}

/// `col` is the transition column of `token`.
pub open spec fn is_column(col: Seq<u8>, pattern: Seq<u8>, token: Seq<u8>) -> bool {
    &&& col.len() == pattern.len()
    &&& forall|s: int| 0 <= s < col.len() ==> #[trigger] col[s] == run(pattern, s as nat, token)
}

/// Two tokens have the same transition column.
pub open spec fn same_effect(pattern: Seq<u8>, a: Seq<u8>, b: Seq<u8>) -> bool {
    forall|s: int|
        0 <= s < pattern.len() ==> #[trigger] run(pattern, s as nat, a) == run(
            pattern,
            s as nat,
            b,
        )
}

/// Token `c` is the first of its class, and its class is not the one that
/// leads every state to 0.
pub open spec fn opens_class(pattern: Seq<u8>, tokens: Seq<Seq<u8>>, c: int) -> bool {
    stirs(pattern, tokens[c]) && forall|d: int|
        0 <= d < c ==> !same_effect(pattern, #[trigger] tokens[d], tokens[c])
}

/// The number of classes among the first `k` tokens, the one that leads every
/// state to 0 included.
pub open spec fn class_count(pattern: Seq<u8>, tokens: Seq<Seq<u8>>, k: nat) -> nat
    decreases k,
{
    if k == 0 {
        1
    } else {
        class_count(pattern, tokens, (k - 1) as nat) + (if opens_class(pattern, tokens, k - 1) {
            1nat
        } else {
            0nat
        })
    }
}

/// State `s` is the first, the full match, or where some token leads.
pub open spec fn reached(pattern: Seq<u8>, tokens: Seq<Seq<u8>>, s: int) -> bool {
    s == 0 || s == pattern.len() || exists|c: int, q: int|
        0 <= c < tokens.len() && 0 <= q < pattern.len() && #[trigger] run(
            pattern,
            q as nat,
            tokens[c],
        ) == s
}

/// The number of reached states below `k`.
pub open spec fn reached_count(pattern: Seq<u8>, tokens: Seq<Seq<u8>>, k: nat) -> nat
    decreases k,
{
    if k == 0 {
        0
    } else {
        reached_count(pattern, tokens, (k - 1) as nat) + (if reached(pattern, tokens, k - 1) {
            1nat
        } else {
            0nat
        })
    }
}

/// The bytes of the pair table over `nclasses` classes and `nstates` states,
/// 0 where it is not built.
pub open spec fn pair_bytes(nclasses: int, nstates: int) -> int {
    if nclasses <= 256 && nclasses * nclasses * nstates <= MAX_TRANS2_BYTES {
        nclasses * nclasses * nstates
    } else {
        0
    }
}

/// The transition column of a token.
fn column_of(delta: &Vec<u8>, m: usize, token: &[u8], Ghost(pattern): Ghost<Seq<u8>>) -> (col: Vec<
    u8,
>)
    requires
        is_automaton(delta@, pattern),
        m == pattern.len(),
        1 <= m <= MAX_PATTERN_LEN,
        token@.len() > 0,
    ensures
        is_column(col@, pattern, token@),
{
    let base: u8 = walk_token(delta, m, 0, token, Ghost(pattern));
    let b: usize = token[0] as usize;
    let mut col: Vec<u8> = Vec::new();
    col.push(base);
    let mut s: usize = 1;
    while s < m
        invariant
            is_automaton(delta@, pattern),
            m == pattern.len(),
            1 <= m <= MAX_PATTERN_LEN,
            token@.len() > 0,
            b == token@[0],
            base == run(pattern, 0, token@),
            1 <= s <= m,
            col@.len() == s,
            forall|q: int| 0 <= q < s ==> #[trigger] col@[q] == run(pattern, q as nat, token@),
        decreases m - s,
    {
        proof {
            assert(delta@[s * 256 + b] == step(pattern, s as nat, b as u8));
            assert(delta@[0 * 256 + b] == step(pattern, 0, b as u8));
        }
        // Equal first steps make the rest of the walks equal.
        let d: u8 = if delta[s * 256 + b] == delta[b] {
            proof {
                lemma_run_first(pattern, s as nat, 0, token@);
            }
            base
        } else {
            walk_token(delta, m, s, token, Ghost(pattern))
        };
        col.push(d);
        s = s + 1;
    }
    col
}

/// Whether two columns are the same.
fn same_column(a: &Vec<u8>, b: &Vec<u8>) -> (r: bool)
    ensures
        r == (a@ == b@),
{
    if a.len() != b.len() {
        return false;
    }
    let mut i: usize = 0;
    while i < a.len()
        invariant
            i <= a@.len(),
            a@.len() == b@.len(),
            forall|k: int| 0 <= k < i ==> a@[k] == b@[k],
        decreases a@.len() - i,
    {
        if a[i] != b[i] {
            return false;
        }
        i = i + 1;
    }
    assert(a@ =~= b@);
    true
}

/// The first column of `list` that is `col`, or the length of `list`.
fn find_column(list: &Vec<Vec<u8>>, col: &Vec<u8>) -> (r: usize)
    ensures
        r <= list@.len(),
        r < list@.len() ==> list@[r as int]@ == col@,
        forall|k: int| 0 <= k < r ==> (#[trigger] list@[k])@ != col@,
{
    let mut k: usize = 0;
    while k < list.len()
        invariant
            k <= list@.len(),
            forall|l: int| 0 <= l < k ==> (#[trigger] list@[l])@ != col@,
        decreases list@.len() - k,
    {
        if same_column(&list[k], col) {
            return k;
        }
        k = k + 1;
    }
    k
}

/// The classes of a dictionary's tokens.
struct Classes {
    /// One column per class; class 0 leads every state to 0.
    columns: Vec<Vec<u8>>,
    /// The class of each token.
    class_of: Vec<u32>,
    /// A token of each class but the first.
    witness: Ghost<Seq<int>>,
}

impl Classes {
    spec fn wf(&self, pattern: Seq<u8>, tokens: Seq<Seq<u8>>, k: int) -> bool {
        let w = self.witness@;
        &&& self.columns@.len() == class_count(pattern, tokens, k as nat)
        &&& 1 <= self.columns@.len() <= k + 1
        &&& w.len() == self.columns@.len()
        &&& self.columns@[0]@.len() == pattern.len()
        &&& forall|s: int| 0 <= s < pattern.len() ==> #[trigger] self.columns@[0]@[s] == 0
        &&& forall|c: int| #![trigger w[c]]
            1 <= c < w.len() ==> 0 <= w[c] < k && is_column(
                self.columns@[c]@,
                pattern,
                tokens[w[c]],
            ) && stirs(pattern, tokens[w[c]])
        &&& self.class_of@.len() == k
        &&& forall|c: int|
            0 <= c < k ==> (#[trigger] self.class_of@[c]) < self.columns@.len() && is_column(
                self.columns@[self.class_of@[c] as int]@,
                pattern,
                tokens[c],
            ) && (self.class_of@[c] == 0 <==> !stirs(pattern, tokens[c]))
    }
}

/// A column of zeros is that of a token that does not stir, and only of one.
proof fn lemma_zero_column(col: Seq<u8>, zero: Seq<u8>, pattern: Seq<u8>, token: Seq<u8>)
    requires
        is_column(col, pattern, token),
        zero.len() == pattern.len(),
        forall|s: int| 0 <= s < zero.len() ==> #[trigger] zero[s] == 0,
    ensures
        col == zero <==> !stirs(pattern, token),
{
    if stirs(pattern, token) {
        let s = choose|s: int|
            0 <= s < pattern.len() && #[trigger] run(pattern, s as nat, token) != 0;
        assert(col[s] != zero[s]);
    } else {
        assert forall|s: int| 0 <= s < col.len() implies col[s] == zero[s] by {
            assert(run(pattern, s as nat, token) == 0);
        }
        assert(col =~= zero);
    }
}

/// Tokens of one column have one effect, and only those.
proof fn lemma_column_effect(
    a: Seq<u8>,
    b: Seq<u8>,
    pattern: Seq<u8>,
    ta: Seq<u8>,
    tb: Seq<u8>,
)
    requires
        is_column(a, pattern, ta),
        is_column(b, pattern, tb),
    ensures
        a == b <==> same_effect(pattern, ta, tb),
{
    if a == b {
        assert forall|s: int| 0 <= s < pattern.len() implies #[trigger] run(pattern, s as nat, ta)
            == run(pattern, s as nat, tb) by {
            assert(a[s] == b[s]);
        }
    }
    if same_effect(pattern, ta, tb) {
        assert forall|s: int| 0 <= s < a.len() implies a[s] == b[s] by {
            assert(run(pattern, s as nat, ta) == run(pattern, s as nat, tb));
        }
        assert(a =~= b);
    }
}

/// Groups tokens by their transition column.
fn classify(
    delta: &Vec<u8>,
    m: usize,
    dict_bytes: &[u8],
    dict_offsets: &[u32],
    Ghost(p): Ghost<Seq<u8>>,
) -> (r: Classes)
    requires
        is_automaton(delta@, p),
        m == p.len(),
        1 <= m <= MAX_PATTERN_LEN,
        dict_ok(dict_bytes@, dict_offsets@),
    ensures
        r.wf(
            p,
            tokens_of(dict_bytes@, dict_offsets@),
            tokens_of(dict_bytes@, dict_offsets@).len() as int,
        ),
{
    let ghost toks = tokens_of(dict_bytes@, dict_offsets@);
    let n: usize = token_count(dict_offsets);
    let boring: Vec<u8> = vec![0u8; m];
    let mut columns: Vec<Vec<u8>> = Vec::new();
    columns.push(boring);
    let ghost first: Seq<int> = seq![0];
    let mut classes = Classes { columns, class_of: Vec::new(), witness: Ghost(first) };
    let mut c: usize = 0;
    while c < n
        invariant
            c <= n,
            n == toks.len(),
            n <= MAX_TOKENS,
            toks == tokens_of(dict_bytes@, dict_offsets@),
            dict_ok(dict_bytes@, dict_offsets@),
            is_automaton(delta@, p),
            m == p.len(),
            1 <= m <= MAX_PATTERN_LEN,
            classes.wf(p, toks, c as int),
        decreases n - c,
    {
        let token = token_at(dict_bytes, dict_offsets, c);
        let col = column_of(delta, m, token, Ghost(p));
        let k: usize = find_column(&classes.columns, &col);
        let ghost old_columns = classes.columns@;
        let ghost old_class = classes.class_of@;
        let ghost old_w = classes.witness@;
        proof {
            lemma_zero_column(col@, old_columns[0]@, p, toks[c as int]);
            if k < old_columns.len() {
                if k > 0 {
                    let w = old_w[k as int];
                    lemma_column_effect(
                        old_columns[k as int]@,
                        col@,
                        p,
                        toks[w],
                        toks[c as int],
                    );
                    assert(same_effect(p, toks[w], toks[c as int]));
                }
                assert(!opens_class(p, toks, c as int));
            } else {
                assert forall|d: int| 0 <= d < c implies !same_effect(
                    p,
                    #[trigger] toks[d],
                    toks[c as int],
                ) by {
                    let kd = old_class[d] as int;
                    lemma_column_effect(old_columns[kd]@, col@, p, toks[d], toks[c as int]);
                }
                assert(opens_class(p, toks, c as int));
            }
        }
        if k == classes.columns.len() {
            classes.columns.push(col);
            proof {
                classes.witness@ = old_w.push(c as int);
            }
        }
        classes.class_of.push(k as u32);
        proof {
            assert forall|e: int| 0 <= e < c + 1 implies (#[trigger] classes.class_of@[e])
                < classes.columns@.len() && is_column(
                classes.columns@[classes.class_of@[e] as int]@,
                p,
                toks[e],
            ) && (classes.class_of@[e] == 0 <==> !stirs(p, toks[e])) by {
                if e < c {
                    assert(old_class[e] < old_columns.len());
                }
            }
        }
        c = c + 1;
    }
    classes
}

/// The reached states, ascending, and their positions.
struct Compaction {
    /// The automaton state of each compact one.
    orig: Vec<usize>,
    /// The compact state of each reached automaton state.
    compact: Vec<u8>,
}

impl Compaction {
    spec fn wf(&self, pattern: Seq<u8>, tokens: Seq<Seq<u8>>) -> bool {
        let m = pattern.len() as int;
        let o = self.orig@;
        &&& o.len() == reached_count(pattern, tokens, pattern.len() + 1)
        &&& 2 <= o.len() <= m + 1
        &&& o[0] == 0
        &&& o[o.len() - 1] == m
        &&& forall|i: int, j: int| 0 <= i < j < o.len() ==> #[trigger] o[i] < #[trigger] o[j]
        &&& forall|i: int| 0 <= i < o.len() ==> (#[trigger] o[i]) <= m
        &&& self.compact@.len() == m + 1
        &&& forall|s: int|
            0 <= s <= m && #[trigger] reached(pattern, tokens, s) ==> self.compact@[s] < o.len()
                && o[self.compact@[s] as int] == s
    }
}

/// State `d` is marked.
spec fn marked(seen: Seq<bool>, d: u8) -> bool {
    d < seen.len() && seen[d as int]
}

/// Keeps the states that some class leads to.
fn compact_states(
    classes: &Classes,
    m: usize,
    Ghost(p): Ghost<Seq<u8>>,
    Ghost(toks): Ghost<Seq<Seq<u8>>>,
) -> (r: Compaction)
    requires
        classes.wf(p, toks, toks.len() as int),
        m == p.len(),
        1 <= m <= MAX_PATTERN_LEN,
    ensures
        r.wf(p, toks),
{
    let mut seen: Vec<bool> = vec![false; m + 1];
    seen.set(0, true);
    seen.set(m, true);
    let mut k: usize = 0;
    while k < classes.columns.len()
        invariant
            classes.wf(p, toks, toks.len() as int),
            m == p.len(),
            1 <= m <= MAX_PATTERN_LEN,
            k <= classes.columns@.len(),
            seen@.len() == m + 1,
            seen@[0],
            seen@[m as int],
            forall|s: int| 0 <= s <= m && #[trigger] seen@[s] ==> reached(p, toks, s),
            forall|l: int, q: int|
                0 <= l < k && 0 <= q < m ==> marked(seen@, #[trigger] classes.columns@[l]@[q]),
        decreases classes.columns@.len() - k,
    {
        let mut s: usize = 0;
        proof {
            if k > 0 {
                assert(is_column(classes.columns@[k as int]@, p, toks[classes.witness@[k as int]]));
            }
        }
        while s < m
            invariant
                classes.wf(p, toks, toks.len() as int),
                m == p.len(),
                1 <= m <= MAX_PATTERN_LEN,
                k < classes.columns@.len(),
                s <= m,
                classes.columns@[k as int]@.len() == m,
                k > 0 ==> is_column(
                    classes.columns@[k as int]@,
                    p,
                    toks[classes.witness@[k as int]],
                ),
                seen@.len() == m + 1,
                seen@[0],
                seen@[m as int],
                forall|q: int| 0 <= q <= m && #[trigger] seen@[q] ==> reached(p, toks, q),
                forall|l: int, q: int|
                    0 <= l < k && 0 <= q < m
                        ==> marked(seen@, #[trigger] classes.columns@[l]@[q]),
                forall|q: int|
                    0 <= q < s ==> marked(seen@, #[trigger] classes.columns@[k as int]@[q]),
            decreases m - s,
        {
            let d: usize = classes.columns[k][s] as usize;
            proof {
                if k > 0 {
                    let w = classes.witness@[k as int];
                    lemma_run_bound(p, s as nat, toks[w]);
                    let q = s as int;
                    assert(run(p, q as nat, toks[w]) == d);
                    assert(reached(p, toks, d as int));
                } else {
                    assert(classes.columns@[0]@[s as int] == 0);
                }
            }
            let ghost before = seen@;
            seen.set(d, true);
            s = s + 1;
            proof {
                assert forall|l: int, q: int| 0 <= l < k && 0 <= q < m implies marked(seen@, #[trigger] classes.columns@[l]@[q]) by {
                    assert(marked(before, classes.columns@[l]@[q]));
                }
                assert forall|q: int| 0 <= q < s implies marked(seen@, #[trigger] classes.columns@[k as int]@[q]) by {
                    if q < s - 1 {
                        assert(marked(before, classes.columns@[k as int]@[q]));
                    }
                }
            }
        }
        k = k + 1;
        proof {
            assert forall|l: int, q: int| 0 <= l < k && 0 <= q < m implies marked(seen@, #[trigger] classes.columns@[l]@[q]) by {
                if l == k - 1 {
                    assert(marked(seen@, classes.columns@[k - 1]@[q]));
                }
            }
        }
    }
    proof {
        assert forall|s: int| 0 <= s <= m && #[trigger] reached(p, toks, s) implies seen@[s] by {
            if s != 0 && s != m {
                let (c, q) = choose|c: int, q: int|
                    0 <= c < toks.len() && 0 <= q < p.len() && #[trigger] run(
                        p,
                        q as nat,
                        toks[c],
                    ) == s;
                let kc = classes.class_of@[c] as int;
                assert(is_column(classes.columns@[kc]@, p, toks[c]));
                assert(marked(seen@, classes.columns@[kc]@[q]));
            }
        }
    }
    let mut orig: Vec<usize> = Vec::new();
    let mut compact: Vec<u8> = vec![0u8; m + 1];
    let mut s: usize = 0;
    while s <= m
        invariant
            m == p.len(),
            1 <= m <= MAX_PATTERN_LEN,
            s <= m + 1,
            seen@.len() == m + 1,
            seen@[0],
            seen@[m as int],
            forall|q: int| 0 <= q <= m ==> #[trigger] seen@[q] == reached(p, toks, q),
            compact@.len() == m + 1,
            orig@.len() <= s,
            orig@.len() == reached_count(p, toks, s as nat),
            s > 0 ==> orig@.len() > 0 && orig@[0] == 0,
            s == m + 1 ==> orig@.len() >= 2 && orig@[orig@.len() - 1] == m,
            forall|i: int, j: int|
                0 <= i < j < orig@.len() ==> #[trigger] orig@[i] < #[trigger] orig@[j],
            forall|i: int| 0 <= i < orig@.len() ==> #[trigger] orig@[i] < s,
            forall|q: int|
                0 <= q < s && #[trigger] reached(p, toks, q) ==> compact@[q] < orig@.len()
                    && orig@[compact@[q] as int] == q,
        decreases m + 1 - s,
    {
        if seen[s] {
            compact.set(s, orig.len() as u8);
            orig.push(s);
        }
        s = s + 1;
    }
    Compaction { orig, compact }
}

/// Everything that a walk reads.
struct Inner {
    class_map8: Vec<u8>,
    class_map: Vec<u32>,
    nclasses: usize,
    nstates: usize,
    trans: Vec<u8>,
    trans2: Option<Vec<u8>>,
    hf_rows: Option<Vec<u8>>,
    hf_rows2: Option<Vec<u8>>,
    accept: u8,
    filter: Filter,
    combo: usize,
    orig: Ghost<Seq<nat>>,
    tokens: Ghost<Seq<Seq<u8>>>,
    pattern: Ghost<Seq<u8>>,
}

/// Every cell of a class table is a state.
spec fn is_table(trans: Seq<u8>, nclasses: int, nstates: int) -> bool {
    &&& trans.len() == nclasses * nstates
    &&& forall|k: int, s: int|
        0 <= k < nclasses && 0 <= s < nstates ==> (#[trigger] trans[k * nstates + s]) < nstates
}

/// The pair table composes the class table with itself.
spec fn is_pair_table(t2: Seq<u8>, trans: Seq<u8>, nclasses: int, nstates: int) -> bool {
    &&& t2.len() == nclasses * nclasses * nstates
    &&& forall|k1: int, k2: int, s: int|
        0 <= k1 < nclasses && 0 <= k2 < nclasses && 0 <= s < nstates ==> #[trigger] t2[(k1
            * nclasses + k2) * nstates + s] == trans[k2 * nstates + trans[k1 * nstates + s]]
}

/// Rows of 64 bytes hold the cells of a table of narrower rows.
spec fn is_wide(rows: Seq<u8>, narrow: Seq<u8>, count: int, nstates: int) -> bool {
    &&& rows.len() == count * 64
    &&& forall|k: int, s: int|
        0 <= k < count && 0 <= s < nstates ==> #[trigger] rows[k * 64 + s] == narrow[k * nstates
            + s]
}

impl Inner {
    /// The transitions of the class table are those of the automaton.
    spec fn follows(&self) -> bool {
        let p = self.pattern@;
        let t = self.tokens@;
        let o = self.orig@;
        &&& forall|c: int|
            0 <= c < t.len() ==> (#[trigger] self.class_map@[c]) < self.nclasses && (
            self.class_map@[c] == 0 <==> !stirs(p, t[c]))
        &&& forall|c: int, s: int|
            0 <= c < t.len() && 0 <= s < self.nstates
                ==> o[self.trans@[self.class_map@[c] * self.nstates + s] as int]
                == #[trigger] run(p, o[s], t[c])
    }

    spec fn wf(&self) -> bool {
        let p = self.pattern@;
        let t = self.tokens@;
        let o = self.orig@;
        let nc = self.nclasses as int;
        let ns = self.nstates as int;
        &&& 1 <= p.len() <= MAX_PATTERN_LEN
        &&& t.len() <= MAX_TOKENS
        &&& nc == class_count(p, t, t.len())
        &&& 1 <= nc <= MAX_TOKENS + 1
        &&& ns == reached_count(p, t, p.len() + 1)
        &&& 2 <= ns <= 255
        &&& o.len() == ns
        &&& o[0] == 0
        &&& o[ns - 1] == p.len()
        &&& forall|i: int, j: int| 0 <= i < j < ns ==> #[trigger] o[i] < #[trigger] o[j]
        &&& self.accept == ns - 1
        &&& self.class_map@.len() == t.len()
        &&& is_table(self.trans@, nc, ns)
        &&& self.follows()
        &&& (nc <= 256 <==> self.class_map8@.len() > 0)
        &&& nc <= 256 ==> self.class_map8@.len() == CLASS_MAP_LEN && forall|c: int|
            0 <= c < t.len() ==> #[trigger] self.class_map8@[c] == self.class_map@[c]
        &&& (self.trans2 is Some <==> nc <= 256 && nc * nc * ns <= MAX_TRANS2_BYTES)
        &&& self.trans2 matches Some(t2) ==> is_pair_table(t2@, self.trans@, nc, ns)
        &&& (self.hf_rows is Some <==> nc <= 256 && ns <= 64)
        &&& self.hf_rows matches Some(h) ==> is_wide(h@, self.trans@, nc, ns)
        &&& (self.hf_rows2 is Some <==> self.trans2 is Some && ns <= 64)
        &&& self.hf_rows2 matches Some(h) ==> is_wide(h@, self.trans2->0@, nc * nc, ns)
        &&& self.filter.wf()
        &&& forall|c: int| 0 <= c < t.len() ==> #[trigger] self.filter.admits(c) == stirs(p, t[c])
        &&& self.combo == combo_of(p.len() as int, longest_stirring(p, t, t.len()) as int)
        &&& 1 <= self.combo <= MAX_COMBO
        &&& (self.combo - 1) * longest_stirring(p, t, t.len()) < p.len()
    }
}

/// The class table over the compacted states.
fn build_trans(
    classes: &Classes,
    states: &Compaction,
    m: usize,
    Ghost(p): Ghost<Seq<u8>>,
    Ghost(toks): Ghost<Seq<Seq<u8>>>,
) -> (trans: Vec<u8>)
    requires
        classes.wf(p, toks, toks.len() as int),
        states.wf(p, toks),
        m == p.len(),
        1 <= m <= MAX_PATTERN_LEN,
        toks.len() <= MAX_TOKENS,
    ensures
        is_table(trans@, classes.columns@.len() as int, states.orig@.len() as int),
        forall|c: int, s: int|
            0 <= c < toks.len() && 0 <= s < states.orig@.len()
                ==> states.orig@[trans@[classes.class_of@[c] * states.orig@.len() + s] as int]
                == #[trigger] run(p, states.orig@[s] as nat, toks[c]),
{
    let ns: usize = states.orig.len();
    let nc: usize = classes.columns.len();
    let ghost o = states.orig@;
    let mut trans: Vec<u8> = Vec::new();
    let mut k: usize = 0;
    while k < nc
        invariant
            classes.wf(p, toks, toks.len() as int),
            states.wf(p, toks),
            m == p.len(),
            1 <= m <= MAX_PATTERN_LEN,
            ns == o.len(),
            nc == classes.columns@.len(),
            o == states.orig@,
            k <= nc,
            trans@.len() == k * ns,
            forall|l: int, s: int|
                0 <= l < k && 0 <= s < ns ==> {
                    let d = #[trigger] trans@[l * ns + s];
                    d < ns && o[d as int] == (if o[s] == m {
                        m as int
                    } else {
                        classes.columns@[l]@[o[s] as int] as int
                    })
                },
        decreases nc - k,
    {
        let mut s: usize = 0;
        proof {
            if k > 0 {
                assert(is_column(classes.columns@[k as int]@, p, toks[classes.witness@[k as int]]));
            }
        }
        while s < ns
            invariant
                classes.wf(p, toks, toks.len() as int),
                states.wf(p, toks),
                m == p.len(),
                1 <= m <= MAX_PATTERN_LEN,
                ns == o.len(),
                nc == classes.columns@.len(),
                o == states.orig@,
                k < nc,
                s <= ns,
                classes.columns@[k as int]@.len() == m,
                k > 0 ==> is_column(
                    classes.columns@[k as int]@,
                    p,
                    toks[classes.witness@[k as int]],
                ),
                trans@.len() == k * ns + s,
                forall|l: int, q: int|
                    (0 <= l < k && 0 <= q < ns) || (l == k && 0 <= q < s) ==> {
                        let d = #[trigger] trans@[l * ns + q];
                        d < ns && o[d as int] == (if o[q] == m {
                            m as int
                        } else {
                            classes.columns@[l]@[o[q] as int] as int
                        })
                    },
            decreases ns - s,
        {
            assert(o[s as int] <= m);
            let state: usize = states.orig[s];
            let dest: usize = if state == m {
                m
            } else {
                classes.columns[k][state] as usize
            };
            proof {
                assert(reached(p, toks, dest as int)) by {
                    if state != m {
                        if k > 0 {
                            let w = classes.witness@[k as int];
                            let q = state as int;
                            assert(run(p, q as nat, toks[w]) == dest);
                        } else {
                            assert(classes.columns@[0]@[state as int] == 0);
                        }
                    }
                }
                assert(dest <= m) by {
                    if state != m && k > 0 {
                        lemma_run_bound(p, state as nat, toks[classes.witness@[k as int]]);
                    } else if state != m {
                        assert(classes.columns@[0]@[state as int] == 0);
                    }
                }
            }
            let ghost before = trans@;
            trans.push(states.compact[dest]);
            proof {
                assert forall|l: int, q: int|
                    (0 <= l < k && 0 <= q < ns) || (l == k && 0 <= q < s + 1) implies ({
                    let d = #[trigger] trans@[l * ns + q];
                    d < ns && o[d as int] == (if o[q] == m {
                        m as int
                    } else {
                        classes.columns@[l]@[o[q] as int] as int
                    })
                }) by {
                    if l < k {
                        lemma_index_step(l, ns as int, q, k as int);
                    }
                    if l * ns + q < before.len() {
                        assert(trans@[l * ns + q] == before[l * ns + q]);
                    } else if l < k {
                        assert(false);
                    }
                }
            }
            s = s + 1;
        }
        k = k + 1;
        proof {
            assert((k - 1) * ns + ns == k * ns) by (nonlinear_arith);
        }
    }
    proof {
        assert forall|c: int, s: int| 0 <= c < toks.len() && 0 <= s < ns implies o[trans@[
        classes.class_of@[c] * ns + s] as int] == #[trigger] run(p, o[s] as nat, toks[c]) by {
            let kc = classes.class_of@[c] as int;
            assert(is_column(classes.columns@[kc]@, p, toks[c]));
            let d = trans@[kc * ns + s];
            assert(o[s] <= m);
            if o[s] == m {
                lemma_run_absorbing(p, toks[c]);
            } else {
                assert(classes.columns@[kc]@[o[s] as int] == run(p, o[s] as nat, toks[c]));
            }
        }
    }
    trans
}

/// The pair table, where it is small enough to build.
fn build_trans2(trans: &Vec<u8>, nc: usize, ns: usize) -> (t2: Option<Vec<u8>>)
    requires
        is_table(trans@, nc as int, ns as int),
        1 <= nc <= MAX_TOKENS + 1,
        2 <= ns <= 255,
    ensures
        t2 is Some <==> nc <= 256 && nc * nc * ns <= MAX_TRANS2_BYTES,
        t2 matches Some(t) ==> is_pair_table(t@, trans@, nc as int, ns as int),
{
    if nc > 256 {
        return None;
    }
    assert(nc * nc <= 65536) by (nonlinear_arith)
        requires
            1 <= nc <= 256,
    ;
    assert(0 <= nc * nc * ns <= 65536 * 255) by (nonlinear_arith)
        requires
            0 <= nc * nc <= 65536,
            2 <= ns <= 255,
    ;
    if nc * nc * ns > MAX_TRANS2_BYTES {
        return None;
    }
    let mut t2: Vec<u8> = Vec::new();
    let mut k1: usize = 0;
    while k1 < nc
        invariant
            is_table(trans@, nc as int, ns as int),
            1 <= nc <= 256,
            2 <= ns <= 255,
            k1 <= nc,
            t2@.len() == k1 * nc * ns,
            forall|a: int, b: int, s: int|
                0 <= a < k1 && 0 <= b < nc && 0 <= s < ns ==> #[trigger] t2@[(a * nc + b) * ns + s]
                    == trans@[b * ns + trans@[a * ns + s]],
        decreases nc - k1,
    {
        let mut k2: usize = 0;
        proof {
            assert((k1 * nc + 0) * ns == k1 * nc * ns) by (nonlinear_arith);
        }
        while k2 < nc
            invariant
                is_table(trans@, nc as int, ns as int),
                1 <= nc <= 256,
                2 <= ns <= 255,
                k1 < nc,
                k2 <= nc,
                t2@.len() == (k1 * nc + k2) * ns,
                forall|a: int, b: int, s: int|
                    ((0 <= a < k1 && 0 <= b < nc) || (a == k1 && 0 <= b < k2)) && 0 <= s < ns
                        ==> #[trigger] t2@[(a * nc + b) * ns + s] == trans@[b * ns + trans@[a * ns
                        + s]],
            decreases nc - k2,
        {
            let mut s: usize = 0;
            while s < ns
                invariant
                    is_table(trans@, nc as int, ns as int),
                    1 <= nc <= 256,
                    2 <= ns <= 255,
                    k1 < nc,
                    k2 < nc,
                    s <= ns,
                    t2@.len() == (k1 * nc + k2) * ns + s,
                    forall|a: int, b: int, q: int|
                        (((0 <= a < k1 && 0 <= b < nc) || (a == k1 && 0 <= b < k2)) && 0 <= q < ns)
                            || (a == k1 && b == k2 && 0 <= q < s) ==> #[trigger] t2@[(a * nc + b)
                            * ns + q] == trans@[b * ns + trans@[a * ns + q]],
                decreases ns - s,
            {
                proof {
                    lemma_cell(k1 as int, ns as int, s as int, nc as int);
                }
                let mid: usize = trans[k1 * ns + s] as usize;
                proof {
                    assert(trans@[k1 * ns + s] < ns);
                    lemma_cell(k2 as int, ns as int, mid as int, nc as int);
                }
                t2.push(trans[k2 * ns + mid]);
                proof {
                    assert forall|a: int, b: int, q: int|
                        (((0 <= a < k1 && 0 <= b < nc) || (a == k1 && 0 <= b < k2)) && 0 <= q < ns)
                            || (a == k1 && b == k2 && 0 <= q < s + 1) implies #[trigger] t2@[(a * nc
                        + b) * ns + q] == trans@[b * ns + trans@[a * ns + q]] by {
                        let row = a * nc + b;
                        let this = k1 * nc + k2;
                        if a == k1 && b == k2 {
                        } else {
                            if a < k1 {
                                lemma_index_step(a, nc as int, b, k1 as int);
                                assert(row < k1 * nc);
                            }
                            assert(row < this);
                            assert(row >= 0) by (nonlinear_arith)
                                requires
                                    row == a * nc + b,
                                    a >= 0,
                                    b >= 0,
                                    nc >= 1,
                            ;
                            lemma_index_step(row, ns as int, q, this);
                        }
                    }
                }
                s = s + 1;
            }
            k2 = k2 + 1;
            proof {
                assert((k1 * nc + (k2 - 1)) * ns + ns == (k1 * nc + k2) * ns) by (nonlinear_arith);
            }
        }
        k1 = k1 + 1;
        proof {
            assert(((k1 - 1) * nc + nc) * ns == k1 * nc * ns) by (nonlinear_arith);
        }
    }
    Some(t2)
}

/// The index of a table cell, bounded for machine arithmetic.
proof fn lemma_cell(k: int, ns: int, s: int, nc: int)
    requires
        0 <= k < nc,
        0 <= s < ns,
        nc <= 65537,
        ns <= 255,
    ensures
        0 <= k * ns,
        0 <= k * ns + s < nc * ns,
        nc * ns <= 16711935,
{
    lemma_index_step(k, ns, s, nc);
    assert(0 <= k * ns) by (nonlinear_arith)
        requires
            0 <= k,
            0 <= ns,
    ;
    assert(nc * ns <= 65537 * 255) by (nonlinear_arith)
        requires
            0 <= nc <= 65537,
            0 <= ns <= 255,
    ;
}

/// Widens a table's rows to 64 bytes.
fn widen(narrow: &Vec<u8>, count: usize, ns: usize) -> (rows: Vec<u8>)
    requires
        narrow@.len() == count * ns,
        count <= 65536,
        2 <= ns <= 64,
    ensures
        is_wide(rows@, narrow@, count as int, ns as int),
{
    let mut rows: Vec<u8> = Vec::new();
    let mut k: usize = 0;
    while k < count
        invariant
            narrow@.len() == count * ns,
            count <= 65536,
            2 <= ns <= 64,
            k <= count,
            rows@.len() == k * 64,
            forall|l: int, s: int|
                0 <= l < k && 0 <= s < ns ==> #[trigger] rows@[l * 64 + s] == narrow@[l * ns + s],
        decreases count - k,
    {
        let mut s: usize = 0;
        while s < 64
            invariant
                narrow@.len() == count * ns,
                count <= 65536,
                2 <= ns <= 64,
                k < count,
                s <= 64,
                rows@.len() == k * 64 + s,
                forall|l: int, q: int|
                    0 <= q < ns && (0 <= l < k || (l == k && q < s)) ==> #[trigger] rows@[l * 64
                        + q] == narrow@[l * ns + q],
            decreases 64 - s,
        {
            if s < ns {
                proof {
                    lemma_cell(k as int, ns as int, s as int, count as int);
                }
                rows.push(narrow[k * ns + s]);
            } else {
                rows.push(0);
            }
            s = s + 1;
        }
        k = k + 1;
    }
    rows
}

/// One code more moves the state reached from `q` by that code's token.
proof fn lemma_step_from(
    pattern: Seq<u8>,
    tokens: Seq<Seq<u8>>,
    q: nat,
    codes: Seq<Token>,
    i: int,
)
    requires
        0 <= i < codes.len(),
    ensures
        run(pattern, q, decode(tokens, codes.take(i + 1))) == run(
            pattern,
            run(pattern, q, decode(tokens, codes.take(i))),
            tokens[codes[i] as int],
        ),
{
    crate::dictionary::lemma_decode_take(tokens, codes, i);
    crate::text::lemma_run_concat(
        pattern,
        q,
        decode(tokens, codes.take(i)),
        tokens[codes[i] as int],
    );
}

/// Before the first code the state is the one that the walk began with.
proof fn lemma_start_from(pattern: Seq<u8>, tokens: Seq<Seq<u8>>, q: nat, codes: Seq<Token>)
    ensures
        run(pattern, q, decode(tokens, codes.take(0))) == q,
{
    assert(codes.take(0) =~= Seq::<Token>::empty());
}

/// Once a prefix has led to the full match, the whole does.
proof fn lemma_absorbed_from(
    pattern: Seq<u8>,
    tokens: Seq<Seq<u8>>,
    q: nat,
    codes: Seq<Token>,
    i: int,
)
    requires
        0 <= i <= codes.len(),
        run(pattern, q, decode(tokens, codes.take(i))) == pattern.len(),
    ensures
        run(pattern, q, decode(tokens, codes)) == pattern.len(),
{
    let a = codes.take(i);
    let b = codes.skip(i);
    assert(a + b =~= codes);
    crate::dictionary::lemma_decode_concat(tokens, a, b);
    crate::text::lemma_run_concat(pattern, q, decode(tokens, a), decode(tokens, b));
    lemma_run_absorbing(pattern, decode(tokens, b));
}

/// Codes that do not stir leave state 0 where it is.
proof fn lemma_boring(pattern: Seq<u8>, tokens: Seq<Seq<u8>>, codes: Seq<Token>)
    requires
        pattern.len() > 0,
        forall|i: int|
            0 <= i < codes.len() ==> !stirs(pattern, tokens[#[trigger] codes[i] as int]),
    ensures
        run(pattern, 0, decode(tokens, codes)) == 0,
    decreases codes.len(),
{
    if codes.len() > 0 {
        let k = codes.len() - 1;
        assert(codes.take(k + 1) =~= codes);
        let front = codes.take(k);
        assert forall|i: int| 0 <= i < front.len() implies !stirs(
            pattern,
            tokens[#[trigger] front[i] as int],
        ) by {
            assert(front[i] == codes[i]);
        }
        lemma_boring(pattern, tokens, front);
        lemma_step_from(pattern, tokens, 0, codes, k);
        let zero: int = 0;
        assert(run(pattern, zero as nat, tokens[codes[k] as int]) == 0);
    }
}

impl Inner {
    /// A compact state is the full match exactly when it is the last.
    proof fn lemma_accept(&self, s: int)
        requires
            self.wf(),
            0 <= s < self.nstates,
        ensures
            s == self.accept <==> self.orig@[s] == self.pattern@.len(),
            self.orig@[s] <= self.pattern@.len(),
    {
        let o = self.orig@;
        let last = self.nstates - 1;
        if s < last {
            assert(o[s] < o[last]);
        }
    }

    /// The class of a code, from the byte-wide map where there is one.
    fn class(&self, c: Token) -> (k: usize)
        requires
            self.wf(),
            c < self.tokens@.len(),
        ensures
            k == self.class_map@[c as int],
            k < self.nclasses,
    {
        assert(self.class_map@[c as int] < self.nclasses);
        if self.class_map8.len() == 0 {
            self.class_map[c as usize] as usize
        } else {
            assert(self.class_map8@[c as int] == self.class_map@[c as int]);
            self.class_map8[c as usize] as usize
        }
    }

    /// One class-table step.
    fn step(&self, s: usize, c: Token) -> (r: usize)
        requires
            self.wf(),
            s < self.nstates,
            c < self.tokens@.len(),
        ensures
            r < self.nstates,
            self.orig@[r as int] == run(
                self.pattern@,
                self.orig@[s as int],
                self.tokens@[c as int],
            ),
    {
        let k: usize = self.class(c);
        proof {
            lemma_cell(k as int, self.nstates as int, s as int, self.nclasses as int);
            let t = run(self.pattern@, self.orig@[s as int], self.tokens@[c as int]);
            assert(self.trans@[k * self.nstates + s] < self.nstates);
        }
        self.trans[k * self.nstates + s] as usize
    }

    /// One pair-table step.
    fn step2(&self, t2: &Vec<u8>, s: usize, c1: Token, c2: Token) -> (r: usize)
        requires
            self.wf(),
            self.trans2 is Some,
            t2@ == self.trans2->0@,
            s < self.nstates,
            c1 < self.tokens@.len(),
            c2 < self.tokens@.len(),
        ensures
            r < self.nstates,
            self.orig@[r as int] == run(
                self.pattern@,
                run(self.pattern@, self.orig@[s as int], self.tokens@[c1 as int]),
                self.tokens@[c2 as int],
            ),
    {
        let k1: usize = self.class(c1);
        let k2: usize = self.class(c2);
        let nc: usize = self.nclasses;
        let ns: usize = self.nstates;
        proof {
            self.lemma_pair_step(s as int, c1, c2, k1 as int, k2 as int);
            lemma_pair_cell(k1 as int, k2 as int, s as int, nc as int, ns as int);
        }
        t2[(k1 * nc + k2) * ns + s] as usize
    }

    /// What the class table says of two codes in turn.
    proof fn lemma_pair_step(&self, s: int, c1: Token, c2: Token, k1: int, k2: int)
        requires
            self.wf(),
            0 <= s < self.nstates,
            c1 < self.tokens@.len(),
            c2 < self.tokens@.len(),
            k1 == self.class_map@[c1 as int],
            k2 == self.class_map@[c2 as int],
        ensures
            k1 < self.nclasses,
            k2 < self.nclasses,
            ({
                let mid = self.trans@[k1 * self.nstates + s] as int;
                let r = self.trans@[k2 * self.nstates + mid] as int;
                &&& 0 <= mid < self.nstates
                &&& 0 <= r < self.nstates
                &&& self.orig@[r] == run(
                    self.pattern@,
                    run(self.pattern@, self.orig@[s], self.tokens@[c1 as int]),
                    self.tokens@[c2 as int],
                )
            }),
    {
        assert(self.class_map@[c1 as int] < self.nclasses);
        assert(self.class_map@[c2 as int] < self.nclasses);
        let ns = self.nstates as int;
        let mid = self.trans@[k1 * ns + s] as int;
        assert(self.trans@[k1 * ns + s] < ns);
        let a = run(self.pattern@, self.orig@[s], self.tokens@[c1 as int]);
        assert(self.orig@[mid] == a);
        let r = self.trans@[k2 * ns + mid] as int;
        assert(self.trans@[k2 * ns + mid] < ns);
        let b = run(self.pattern@, self.orig@[mid], self.tokens@[c2 as int]);
        assert(self.orig@[r] == b);
    }

    /// Whether the codes lead state `s` to the full match, one class-table
    /// lookup per code.
    fn finish_class(&self, codes: &[Token], s: usize) -> (r: bool)
        requires
            self.wf(),
            codes_ok(codes@, self.tokens@.len()),
            s < self.nstates,
        ensures
            r == (run(self.pattern@, self.orig@[s as int], decode(self.tokens@, codes@))
                == self.pattern@.len()),
    {
        let accept: usize = self.accept as usize;
        let ghost q = self.orig@[s as int];
        let ghost cs = codes@;
        let mut st: usize = s;
        let mut i: usize = 0;
        proof {
            lemma_start_from(self.pattern@, self.tokens@, q, cs);
        }
        while i < codes.len()
            invariant
                self.wf(),
                codes_ok(cs, self.tokens@.len()),
                cs == codes@,
                accept == self.accept,
                q == self.orig@[s as int],
                i <= cs.len(),
                st < self.nstates,
                self.orig@[st as int] == run(
                    self.pattern@,
                    q,
                    decode(self.tokens@, cs.take(i as int)),
                ),
            decreases cs.len() - i,
        {
            proof {
                assert(cs[i as int] < self.tokens@.len());
                lemma_step_from(self.pattern@, self.tokens@, q, cs, i as int);
            }
            st = self.step(st, codes[i]);
            i = i + 1;
            if st == accept {
                proof {
                    self.lemma_accept(st as int);
                    lemma_absorbed_from(self.pattern@, self.tokens@, q, cs, i as int);
                }
                return true;
            }
        }
        proof {
            assert(cs.take(i as int) =~= cs);
            self.lemma_accept(st as int);
        }
        st == accept
    }

    /// Whether the codes lead state `s` to the full match, one pair-table
    /// lookup per two codes and a single step for the last of an odd number.
    /// Stopping at the full match is exact because it is absorbing.
    fn finish_pair(&self, codes: &[Token], s: usize) -> (r: bool)
        requires
            self.wf(),
            self.trans2 is Some,
            codes_ok(codes@, self.tokens@.len()),
            s < self.nstates,
        ensures
            r == (run(self.pattern@, self.orig@[s as int], decode(self.tokens@, codes@))
                == self.pattern@.len()),
    {
        match &self.trans2 {
            None => false,
            Some(t2) => {
                let accept: usize = self.accept as usize;
                let ghost q = self.orig@[s as int];
                let ghost cs = codes@;
                let n: usize = codes.len();
                let mut st: usize = s;
                let mut i: usize = 0;
                proof {
                    lemma_start_from(self.pattern@, self.tokens@, q, cs);
                }
                while n - i >= 2
                    invariant
                        self.wf(),
                        self.trans2 is Some,
                        t2@ == self.trans2->0@,
                        codes_ok(cs, self.tokens@.len()),
                        cs == codes@,
                        n == cs.len(),
                        accept == self.accept,
                        q == self.orig@[s as int],
                        i <= n,
                        st < self.nstates,
                        self.orig@[st as int] == run(
                            self.pattern@,
                            q,
                            decode(self.tokens@, cs.take(i as int)),
                        ),
                    decreases n - i,
                {
                    proof {
                        assert(cs[i as int] < self.tokens@.len());
                        assert(cs[i + 1] < self.tokens@.len());
                        lemma_step_from(self.pattern@, self.tokens@, q, cs, i as int);
                        lemma_step_from(self.pattern@, self.tokens@, q, cs, i + 1);
                    }
                    st = self.step2(t2, st, codes[i], codes[i + 1]);
                    i = i + 2;
                    if st == accept {
                        proof {
                            self.lemma_accept(st as int);
                            lemma_absorbed_from(self.pattern@, self.tokens@, q, cs, i as int);
                        }
                        return true;
                    }
                }
                if i < n {
                    proof {
                        assert(cs[i as int] < self.tokens@.len());
                        lemma_step_from(self.pattern@, self.tokens@, q, cs, i as int);
                    }
                    st = self.step(st, codes[i]);
                    i = i + 1;
                }
                proof {
                    assert(cs.take(i as int) =~= cs);
                    self.lemma_accept(st as int);
                }
                st == accept
            },
        }
    }

    /// Whether the codes lead state `s` to the full match, one 64-byte row
    /// per code.
    fn finish_hyperflex(&self, codes: &[Token], s: usize) -> (r: bool)
        requires
            self.wf(),
            self.hf_rows is Some,
            codes_ok(codes@, self.tokens@.len()),
            s < self.nstates,
        ensures
            r == (run(self.pattern@, self.orig@[s as int], decode(self.tokens@, codes@))
                == self.pattern@.len()),
    {
        match &self.hf_rows {
            None => false,
            Some(rows) => {
                let accept: usize = self.accept as usize;
                let ghost q = self.orig@[s as int];
                let ghost cs = codes@;
                let ns: usize = self.nstates;
                let mut st: usize = s;
                let mut i: usize = 0;
                proof {
                    lemma_start_from(self.pattern@, self.tokens@, q, cs);
                }
                while i < codes.len()
                    invariant
                        self.wf(),
                        self.hf_rows is Some,
                        rows@ == self.hf_rows->0@,
                        codes_ok(cs, self.tokens@.len()),
                        cs == codes@,
                        accept == self.accept,
                        q == self.orig@[s as int],
                        ns == self.nstates,
                        i <= cs.len(),
                        st < self.nstates,
                        self.orig@[st as int] == run(
                            self.pattern@,
                            q,
                            decode(self.tokens@, cs.take(i as int)),
                        ),
                    decreases cs.len() - i,
                {
                    assert(cs[i as int] < self.tokens@.len());
                    let k: usize = self.class(codes[i]);
                    proof {
                        lemma_step_from(self.pattern@, self.tokens@, q, cs, i as int);
                        let t = run(
                            self.pattern@,
                            self.orig@[st as int],
                            self.tokens@[cs[i as int] as int],
                        );
                        assert(self.trans@[k * ns + st] < ns);
                        assert(rows@[k * 64 + st] == self.trans@[k * ns + st]);
                    }
                    st = rows[k * 64 + st] as usize;
                    i = i + 1;
                    if st == accept {
                        proof {
                            self.lemma_accept(st as int);
                            lemma_absorbed_from(self.pattern@, self.tokens@, q, cs, i as int);
                        }
                        return true;
                    }
                }
                proof {
                    assert(cs.take(i as int) =~= cs);
                    self.lemma_accept(st as int);
                }
                st == accept
            },
        }
    }

    /// One step over two codes by a 64-byte row.
    fn step2_wide(&self, rows: &Vec<u8>, s: usize, c1: Token, c2: Token) -> (r: usize)
        requires
            self.wf(),
            self.hf_rows2 is Some,
            rows@ == self.hf_rows2->0@,
            s < self.nstates,
            c1 < self.tokens@.len(),
            c2 < self.tokens@.len(),
        ensures
            r < self.nstates,
            self.orig@[r as int] == run(
                self.pattern@,
                run(self.pattern@, self.orig@[s as int], self.tokens@[c1 as int]),
                self.tokens@[c2 as int],
            ),
    {
        let k1: usize = self.class(c1);
        let k2: usize = self.class(c2);
        let nc: usize = self.nclasses;
        proof {
            let ns = self.nstates as int;
            self.lemma_pair_step(s as int, c1, c2, k1 as int, k2 as int);
            lemma_pair_cell(k1 as int, k2 as int, s as int, nc as int, ns);
            let t2 = self.trans2->0@;
            assert(t2[(k1 * nc + k2) * ns + s] == self.trans@[k2 * ns + self.trans@[k1 * ns + s]]);
            assert(rows@[(k1 * nc + k2) * 64 + s] == t2[(k1 * nc + k2) * ns + s]);
        }
        rows[(k1 * nc + k2) * 64 + s] as usize
    }

    /// Whether the codes lead state `s` to the full match, one 64-byte row
    /// per two codes.
    fn finish_hyperflex_pair(&self, codes: &[Token], s: usize) -> (r: bool)
        requires
            self.wf(),
            self.hf_rows2 is Some,
            codes_ok(codes@, self.tokens@.len()),
            s < self.nstates,
        ensures
            r == (run(self.pattern@, self.orig@[s as int], decode(self.tokens@, codes@))
                == self.pattern@.len()),
    {
        match &self.hf_rows2 {
            None => false,
            Some(rows) => {
                let accept: usize = self.accept as usize;
                let ghost q = self.orig@[s as int];
                let ghost cs = codes@;
                let n: usize = codes.len();
                let mut st: usize = s;
                let mut i: usize = 0;
                proof {
                    lemma_start_from(self.pattern@, self.tokens@, q, cs);
                }
                while n - i >= 2
                    invariant
                        self.wf(),
                        self.hf_rows2 is Some,
                        rows@ == self.hf_rows2->0@,
                        codes_ok(cs, self.tokens@.len()),
                        cs == codes@,
                        n == cs.len(),
                        accept == self.accept,
                        q == self.orig@[s as int],
                        i <= n,
                        st < self.nstates,
                        self.orig@[st as int] == run(
                            self.pattern@,
                            q,
                            decode(self.tokens@, cs.take(i as int)),
                        ),
                    decreases n - i,
                {
                    proof {
                        assert(cs[i as int] < self.tokens@.len());
                        assert(cs[i + 1] < self.tokens@.len());
                        lemma_step_from(self.pattern@, self.tokens@, q, cs, i as int);
                        lemma_step_from(self.pattern@, self.tokens@, q, cs, i + 1);
                    }
                    st = self.step2_wide(rows, st, codes[i], codes[i + 1]);
                    i = i + 2;
                    if st == accept {
                        proof {
                            self.lemma_accept(st as int);
                            lemma_absorbed_from(self.pattern@, self.tokens@, q, cs, i as int);
                        }
                        return true;
                    }
                }
                if i < n {
                    proof {
                        assert(cs[i as int] < self.tokens@.len());
                        lemma_step_from(self.pattern@, self.tokens@, q, cs, i as int);
                    }
                    st = self.step(st, codes[i]);
                    i = i + 1;
                }
                proof {
                    assert(cs.take(i as int) =~= cs);
                    self.lemma_accept(st as int);
                }
                st == accept
            },
        }
    }

    /// The tables of the walk are built.
    spec fn can(&self, walk: Walk) -> bool {
        match walk {
            Walk::Class => true,
            Walk::Pair => self.trans2 is Some,
            Walk::Hyperflex => self.hf_rows is Some,
            Walk::HyperflexPair => self.hf_rows2 is Some,
        }
    }

    /// Walks one row with the requested strategy.
    fn walk_row(&self, codes: &[Token], walk: Walk) -> (r: bool)
        requires
            self.wf(),
            self.can(walk),
            codes_ok(codes@, self.tokens@.len()),
        ensures
            r == contains(decode(self.tokens@, codes@), self.pattern@),
    {
        proof {
            lemma_row_decides(self.pattern@, self.tokens@, codes@);
        }
        match walk {
            Walk::Class => self.finish_class(codes, 0),
            Walk::Pair => self.finish_pair(codes, 0),
            Walk::Hyperflex => self.finish_hyperflex(codes, 0),
            Walk::HyperflexPair => self.finish_hyperflex_pair(codes, 0),
        }
    }
}

/// The index of a pair-table cell, bounded for machine arithmetic.
proof fn lemma_pair_cell(k1: int, k2: int, s: int, nc: int, ns: int)
    requires
        0 <= k1 < nc,
        0 <= k2 < nc,
        0 <= s < ns,
        nc <= 256,
        ns <= 255,
    ensures
        0 <= k1 * nc,
        0 <= k1 * nc + k2 < nc * nc,
        nc * nc <= 65536,
        0 <= (k1 * nc + k2) * ns,
        0 <= (k1 * nc + k2) * ns + s < nc * nc * ns,
        nc * nc * ns <= 16711680,
        0 <= (k1 * nc + k2) * 64,
        s < 64 ==> (k1 * nc + k2) * 64 + s < nc * nc * 64,
        nc * nc * 64 <= 4194304,
{
    assert(0 <= k1 * nc) by (nonlinear_arith)
        requires
            0 <= k1,
            0 <= nc,
    ;
    lemma_index_step(k1, nc, k2, nc);
    assert(nc * nc <= 65536) by (nonlinear_arith)
        requires
            0 <= nc <= 256,
    ;
    let row = k1 * nc + k2;
    lemma_index_step(row, ns, s, nc * nc);
    assert(0 <= row * ns) by (nonlinear_arith)
        requires
            0 <= row,
            0 <= ns,
    ;
    assert(nc * nc * ns <= 65536 * 255) by (nonlinear_arith)
        requires
            0 <= nc * nc <= 65536,
            0 <= ns <= 255,
    ;
    if s < 64 {
        lemma_index_step(row, 64, s, nc * nc);
    }
}

/// A compiled matcher and the way it is to walk rows.
struct WalkWith<'a> {
    inner: &'a Inner,
    walk: Walk,
}

impl<'a> RowWalk for WalkWith<'a> {
    closed spec fn looks_for(&self) -> Seq<u8> {
        self.inner.pattern@
    }

    closed spec fn over(&self) -> Seq<Seq<u8>> {
        self.inner.tokens@
    }

    closed spec fn ready(&self) -> bool {
        self.inner.wf() && self.inner.can(self.walk)
    }

    fn walk(&self, codes: &[Token]) -> (r: bool) {
        self.inner.walk_row(codes, self.walk)
    }
}

/// The codes of a span.
pub open spec fn span_codes(codes: Seq<Token>, span: (u32, u32)) -> Seq<Token> {
    codes.subrange(span.0 as int, span.1 as int)
}

/// The span lies in a stream of `n` codes.
pub open spec fn span_ok(span: (u32, u32), n: nat) -> bool {
    span.0 <= span.1 <= n
}

impl Inner {
    /// `s` is the state after the first `k` codes of the span.
    spec fn lane(&self, codes: Seq<Token>, span: (u32, u32), k: int, s: usize) -> bool {
        &&& s < self.nstates
        &&& 0 <= k <= span.1 - span.0
        &&& self.orig@[s as int] == run(
            self.pattern@,
            0,
            decode(self.tokens@, span_codes(codes, span).take(k)),
        )
    }

    /// Every lane begins in state 0.
    proof fn lemma_lane_start(&self, codes: Seq<Token>, span: (u32, u32))
        requires
            self.wf(),
            span_ok(span, codes.len()),
        ensures
            self.lane(codes, span, 0, 0),
    {
        lemma_start_from(self.pattern@, self.tokens@, 0, span_codes(codes, span));
    }

    /// The states of a lane two codes on.
    proof fn lemma_lane_step2(&self, codes: Seq<Token>, span: (u32, u32), k: int)
        requires
            self.wf(),
            codes_ok(codes, self.tokens@.len()),
            span_ok(span, codes.len()),
            0 <= k,
            k + 2 <= span.1 - span.0,
        ensures
            codes[span.0 + k] < self.tokens@.len(),
            codes[span.0 + k + 1] < self.tokens@.len(),
            run(
                self.pattern@,
                0,
                decode(self.tokens@, span_codes(codes, span).take(k + 2)),
            ) == run(
                self.pattern@,
                run(
                    self.pattern@,
                    run(
                        self.pattern@,
                        0,
                        decode(self.tokens@, span_codes(codes, span).take(k)),
                    ),
                    self.tokens@[codes[span.0 + k] as int],
                ),
                self.tokens@[codes[span.0 + k + 1] as int],
            ),
    {
        let row = span_codes(codes, span);
        lemma_step_from(self.pattern@, self.tokens@, 0, row, k);
        lemma_step_from(self.pattern@, self.tokens@, 0, row, k + 1);
        assert(row[k] == codes[span.0 + k]);
        assert(row[k + 1] == codes[span.0 + k + 1]);
        assert(codes[span.0 + k] < self.tokens@.len());
        assert(codes[span.0 + k + 1] < self.tokens@.len());
    }

    /// A pair step of one lane.
    fn lane_pair(&self, t2: &Vec<u8>, codes: &[Token], span: (u32, u32), k: usize, s: usize) -> (r: usize)
        requires
            self.wf(),
            self.trans2 is Some,
            t2@ == self.trans2->0@,
            codes_ok(codes@, self.tokens@.len()),
            span_ok(span, codes@.len()),
            k + 2 <= span.1 - span.0,
            self.lane(codes@, span, k as int, s),
        ensures
            self.lane(codes@, span, k + 2, r),
    {
        let len: usize = codes.len();
        proof {
            self.lemma_lane_step2(codes@, span, k as int);
        }
        let at: usize = span.0 as usize + k;
        self.step2(t2, s, codes[at], codes[at + 1])
    }

    /// A pair step of one lane by 64-byte rows.
    fn lane_wide(&self, rows: &Vec<u8>, codes: &[Token], span: (u32, u32), k: usize, s: usize) -> (r: usize)
        requires
            self.wf(),
            self.hf_rows2 is Some,
            rows@ == self.hf_rows2->0@,
            codes_ok(codes@, self.tokens@.len()),
            span_ok(span, codes@.len()),
            k + 2 <= span.1 - span.0,
            self.lane(codes@, span, k as int, s),
        ensures
            self.lane(codes@, span, k + 2, r),
    {
        let len: usize = codes.len();
        proof {
            self.lemma_lane_step2(codes@, span, k as int);
        }
        let at: usize = span.0 as usize + k;
        self.step2_wide(rows, s, codes[at], codes[at + 1])
    }

    /// What a lane's state says of its span, once the rest is walked too.
    proof fn lemma_lane_rest(&self, codes: Seq<Token>, span: (u32, u32), k: int, s: usize)
        requires
            self.wf(),
            span_ok(span, codes.len()),
            self.lane(codes, span, k, s),
        ensures
            contains(decode(self.tokens@, span_codes(codes, span)), self.pattern@) <==> run(
                self.pattern@,
                self.orig@[s as int],
                decode(self.tokens@, codes.subrange(span.0 + k, span.1 as int)),
            ) == self.pattern@.len(),
            s == self.accept ==> contains(
                decode(self.tokens@, span_codes(codes, span)),
                self.pattern@,
            ),
    {
        let row = span_codes(codes, span);
        let rest = codes.subrange(span.0 + k, span.1 as int);
        assert(row.take(k) + rest =~= row);
        crate::dictionary::lemma_decode_concat(self.tokens@, row.take(k), rest);
        crate::text::lemma_run_concat(
            self.pattern@,
            0,
            decode(self.tokens@, row.take(k)),
            decode(self.tokens@, rest),
        );
        lemma_row_decides(self.pattern@, self.tokens@, row);
        self.lemma_accept(s as int);
        lemma_run_absorbing(self.pattern@, decode(self.tokens@, rest));
    }

    /// Finishes a lane after `k` of its codes.
    fn lane_finish(&self, codes: &[Token], span: (u32, u32), k: usize, s: usize) -> (r: bool)
        requires
            self.wf(),
            self.trans2 is Some,
            codes_ok(codes@, self.tokens@.len()),
            span_ok(span, codes@.len()),
            self.lane(codes@, span, k as int, s),
        ensures
            r == contains(decode(self.tokens@, span_codes(codes@, span)), self.pattern@),
    {
        let len: usize = codes.len();
        proof {
            self.lemma_lane_rest(codes@, span, k as int, s);
        }
        if s == self.accept as usize {
            return true;
        }
        let from: usize = span.0 as usize + k;
        let rest = &codes[from..span.1 as usize];
        proof {
            assert forall|i: int| 0 <= i < rest@.len() implies #[trigger] rest@[i]
                < self.tokens@.len() by {
                assert(codes@[from + i] < self.tokens@.len());
            }
        }
        self.finish_pair(rest, s)
    }

    /// Four interleaved pair walks. All four lanes run for as many rounds as
    /// the shortest has pairs, stopping early only when every lane has
    /// accepted; each lane then finishes on its own.
    fn walk4_pair(&self, codes: &[Token], p0: (u32, u32), p1: (u32, u32), p2: (u32, u32), p3: (u32, u32)) -> (out: [bool; 4])
        requires
            self.wf(),
            self.trans2 is Some,
            codes_ok(codes@, self.tokens@.len()),
            span_ok(p0, codes@.len()),
            span_ok(p1, codes@.len()),
            span_ok(p2, codes@.len()),
            span_ok(p3, codes@.len()),
        ensures
            out[0] == contains(decode(self.tokens@, span_codes(codes@, p0)), self.pattern@),
            out[1] == contains(decode(self.tokens@, span_codes(codes@, p1)), self.pattern@),
            out[2] == contains(decode(self.tokens@, span_codes(codes@, p2)), self.pattern@),
            out[3] == contains(decode(self.tokens@, span_codes(codes@, p3)), self.pattern@),
    {
        let accept: usize = self.accept as usize;
        let mut s0: usize = 0;
        let mut s1: usize = 0;
        let mut s2: usize = 0;
        let mut s3: usize = 0;
        let mut k: usize = 0;
        proof {
            self.lemma_lane_start(codes@, p0);
            self.lemma_lane_start(codes@, p1);
            self.lemma_lane_start(codes@, p2);
            self.lemma_lane_start(codes@, p3);
        }
        if let Some(t2) = &self.trans2 {
            let mut shortest: u32 = p0.1 - p0.0;
            if p1.1 - p1.0 < shortest {
                shortest = p1.1 - p1.0;
            }
            if p2.1 - p2.0 < shortest {
                shortest = p2.1 - p2.0;
            }
            if p3.1 - p3.0 < shortest {
                shortest = p3.1 - p3.0;
            }
            let end: usize = shortest as usize;
            while end - k >= 2
                invariant
                    self.wf(),
                    self.trans2 is Some,
                    t2@ == self.trans2->0@,
                    codes_ok(codes@, self.tokens@.len()),
                    span_ok(p0, codes@.len()),
                    span_ok(p1, codes@.len()),
                    span_ok(p2, codes@.len()),
                    span_ok(p3, codes@.len()),
                    accept == self.accept,
                    k <= end,
                    end <= p0.1 - p0.0,
                    end <= p1.1 - p1.0,
                    end <= p2.1 - p2.0,
                    end <= p3.1 - p3.0,
                    self.lane(codes@, p0, k as int, s0),
                    self.lane(codes@, p1, k as int, s1),
                    self.lane(codes@, p2, k as int, s2),
                    self.lane(codes@, p3, k as int, s3),
                decreases end - k,
            {
                s0 = self.lane_pair(t2, codes, p0, k, s0);
                s1 = self.lane_pair(t2, codes, p1, k, s1);
                s2 = self.lane_pair(t2, codes, p2, k, s2);
                s3 = self.lane_pair(t2, codes, p3, k, s3);
                k = k + 2;
                if s0 == accept && s1 == accept && s2 == accept && s3 == accept {
                    proof {
                        self.lemma_lane_rest(codes@, p0, k as int, s0);
                        self.lemma_lane_rest(codes@, p1, k as int, s1);
                        self.lemma_lane_rest(codes@, p2, k as int, s2);
                        self.lemma_lane_rest(codes@, p3, k as int, s3);
                    }
                    return [true, true, true, true];
                }
            }
        }
        let r0: bool = self.lane_finish(codes, p0, k, s0);
        let r1: bool = self.lane_finish(codes, p1, k, s1);
        let r2: bool = self.lane_finish(codes, p2, k, s2);
        let r3: bool = self.lane_finish(codes, p3, k, s3);
        [r0, r1, r2, r3]
    }

    /// The last step of a lane whose pairs are walked.
    fn lane_tail(&self, codes: &[Token], span: (u32, u32), k: usize, s: usize) -> (r: bool)
        requires
            self.wf(),
            codes_ok(codes@, self.tokens@.len()),
            span_ok(span, codes@.len()),
            self.lane(codes@, span, k as int, s),
            span.1 - span.0 - k < 2,
        ensures
            r == contains(decode(self.tokens@, span_codes(codes@, span)), self.pattern@),
    {
        let len: usize = codes.len();
        let ghost row = span_codes(codes@, span);
        let mut st: usize = s;
        proof {
            lemma_row_decides(self.pattern@, self.tokens@, row);
        }
        if k < (span.1 - span.0) as usize {
            let at: usize = span.0 as usize + k;
            proof {
                lemma_step_from(self.pattern@, self.tokens@, 0, row, k as int);
                assert(row[k as int] == codes@[at as int]);
                assert(codes@[at as int] < self.tokens@.len());
                assert(row.take(k + 1) =~= row);
            }
            st = self.step(st, codes[at]);
        } else {
            assert(row.take(k as int) =~= row);
        }
        proof {
            self.lemma_accept(st as int);
        }
        st == self.accept as usize
    }

    /// Four interleaved pair walks over 64-byte rows. Lanes that have run out
    /// of pairs stand still while the others go on.
    fn walk4_hyperflex_pair(&self, codes: &[Token], p0: (u32, u32), p1: (u32, u32), p2: (u32, u32), p3: (u32, u32)) -> (out: [bool; 4])
        requires
            self.wf(),
            self.hf_rows2 is Some,
            codes_ok(codes@, self.tokens@.len()),
            span_ok(p0, codes@.len()),
            span_ok(p1, codes@.len()),
            span_ok(p2, codes@.len()),
            span_ok(p3, codes@.len()),
        ensures
            out[0] == contains(decode(self.tokens@, span_codes(codes@, p0)), self.pattern@),
            out[1] == contains(decode(self.tokens@, span_codes(codes@, p1)), self.pattern@),
            out[2] == contains(decode(self.tokens@, span_codes(codes@, p2)), self.pattern@),
            out[3] == contains(decode(self.tokens@, span_codes(codes@, p3)), self.pattern@),
    {
        proof {
            self.lemma_lane_start(codes@, p0);
            self.lemma_lane_start(codes@, p1);
            self.lemma_lane_start(codes@, p2);
            self.lemma_lane_start(codes@, p3);
        }
        match &self.hf_rows2 {
            None => [false, false, false, false],
            Some(rows) => {
                let e0: usize = 2 * ((p0.1 - p0.0) / 2) as usize;
                let e1: usize = 2 * ((p1.1 - p1.0) / 2) as usize;
                let e2: usize = 2 * ((p2.1 - p2.0) / 2) as usize;
                let e3: usize = 2 * ((p3.1 - p3.0) / 2) as usize;
                let mut s0: usize = 0;
                let mut s1: usize = 0;
                let mut s2: usize = 0;
                let mut s3: usize = 0;
                let mut k: usize = 0;
                while k < e0 || k < e1 || k < e2 || k < e3
                    invariant
                        self.wf(),
                        self.hf_rows2 is Some,
                        rows@ == self.hf_rows2->0@,
                        codes_ok(codes@, self.tokens@.len()),
                        span_ok(p0, codes@.len()),
                        span_ok(p1, codes@.len()),
                        span_ok(p2, codes@.len()),
                        span_ok(p3, codes@.len()),
                        k % 2 == 0,
                        e0 % 2 == 0,
                        e1 % 2 == 0,
                        e2 % 2 == 0,
                        e3 % 2 == 0,
                        e0 <= p0.1 - p0.0,
                        e1 <= p1.1 - p1.0,
                        e2 <= p2.1 - p2.0,
                        e3 <= p3.1 - p3.0,
                        self.lane(codes@, p0, min_of(k as int, e0 as int), s0),
                        self.lane(codes@, p1, min_of(k as int, e1 as int), s1),
                        self.lane(codes@, p2, min_of(k as int, e2 as int), s2),
                        self.lane(codes@, p3, min_of(k as int, e3 as int), s3),
                    decreases e0 + e1 + e2 + e3 - k,
                {
                    if k < e0 {
                        s0 = self.lane_wide(rows, codes, p0, k, s0);
                    }
                    if k < e1 {
                        s1 = self.lane_wide(rows, codes, p1, k, s1);
                    }
                    if k < e2 {
                        s2 = self.lane_wide(rows, codes, p2, k, s2);
                    }
                    if k < e3 {
                        s3 = self.lane_wide(rows, codes, p3, k, s3);
                    }
                    k = k + 2;
                }
                let r0: bool = self.lane_tail(codes, p0, e0, s0);
                let r1: bool = self.lane_tail(codes, p1, e1, s1);
                let r2: bool = self.lane_tail(codes, p2, e2, s2);
                let r3: bool = self.lane_tail(codes, p3, e3, s3);
                [r0, r1, r2, r3]
            },
        }
    }
}

spec fn min_of(a: int, b: int) -> int {
    if a < b {
        a
    } else {
        b
    }
}

/// No code of `from..to` stirs the automaton.
spec fn quiet(pattern: Seq<u8>, tokens: Seq<Seq<u8>>, codes: Seq<Token>, from: int, to: int) -> bool {
    forall|i: int| from <= i < to ==> !stirs(pattern, tokens[#[trigger] codes[i] as int])
}

impl Inner {
    /// A quiet stretch from state 0 ends in state 0.
    proof fn lemma_quiet(&self, codes: Seq<Token>, from: int, to: int)
        requires
            self.wf(),
            0 <= from <= to <= codes.len(),
            quiet(self.pattern@, self.tokens@, codes, from, to),
        ensures
            run(self.pattern@, 0, decode(self.tokens@, codes.subrange(from, to))) == 0,
    {
        let part = codes.subrange(from, to);
        assert forall|i: int| 0 <= i < part.len() implies !stirs(
            self.pattern@,
            self.tokens@[#[trigger] part[i] as int],
        ) by {
            assert(part[i] == codes[from + i]);
        }
        lemma_boring(self.pattern@, self.tokens@, part);
    }

    /// Rows whose codes are all quiet do not contain the pattern.
    proof fn lemma_quiet_rows(&self, codes: Seq<Token>, b: Seq<int>, lo: int, hi: int)
        requires
            self.wf(),
            rows_ok(b, codes.len() as int),
            0 <= lo <= hi < b.len(),
            quiet(self.pattern@, self.tokens@, codes, b[lo], b[hi]),
        ensures
            forall|q: int|
                lo <= q < hi ==> !#[trigger] row_contains(
                    self.tokens@,
                    codes,
                    b,
                    self.pattern@,
                )(q),
    {
        assert forall|q: int| lo <= q < hi implies !#[trigger] row_contains(
            self.tokens@,
            codes,
            b,
            self.pattern@,
        )(q) by {
            assert(b[q] <= b[q + 1]);
            assert(b[q + 1] <= codes.len());
            if lo < q {
                assert(b[lo] <= b[q]);
            }
            if q + 1 < hi {
                assert(b[q + 1] <= b[hi]);
            }
            self.lemma_quiet(codes, b[q], b[q + 1]);
            lemma_row_decides(self.pattern@, self.tokens@, row_codes(codes, b, q));
        }
    }

    /// One code more in the row that begins at `from`.
    proof fn lemma_row_on(&self, codes: Seq<Token>, from: int, p: int)
        requires
            self.wf(),
            0 <= from <= p < codes.len(),
        ensures
            run(self.pattern@, 0, decode(self.tokens@, codes.subrange(from, p + 1))) == run(
                self.pattern@,
                run(self.pattern@, 0, decode(self.tokens@, codes.subrange(from, p))),
                self.tokens@[codes[p] as int],
            ),
    {
        let row = codes.subrange(from, p + 1);
        assert(row.take(p - from) =~= codes.subrange(from, p));
        assert(row.take(p - from + 1) =~= row);
        lemma_step_from(self.pattern@, self.tokens@, 0, row, p - from);
    }

    /// The scan behind [`ClassSearcher::matching_rows_skip`].
    #[verifier::rlimit(60)]
    #[verifier::spinoff_prover]
    fn skip_scan<O: Offset>(&self, codes: &[Token], offsets: &[O]) -> (out: Vec<u64>)
        requires
            self.wf(),
            codes_ok(codes@, self.tokens@.len()),
            rows_ok(bounds(offsets@), codes@.len() as int),
        ensures
            out@ == selected(
                row_count(bounds(offsets@)),
                row_contains(self.tokens@, codes@, bounds(offsets@), self.pattern@),
            ),
    {
        let ghost b = bounds(offsets@);
        let ghost cs = codes@;
        let ghost pat = self.pattern@;
        let ghost toks = self.tokens@;
        let ghost pred = row_contains(toks, cs, b, pat);
        let n: usize = count_rows(offsets);
        let mut out: Vec<u64> = Vec::new();
        if n == 0 {
            return out;
        }
        let len: usize = codes.len();
        let words: usize = len / 64 + (if len % 64 == 0 {
            0usize
        } else {
            1usize
        });
        let mut mask: Vec<u64> = vec![0u64; words];
        self.filter.candidate_mask(codes, &mut mask);
        proof {
            lemma_bound_in(b, cs.len() as int, 0);
            lemma_bound_in(b, cs.len() as int, 1);
            lemma_bound_in(b, cs.len() as int, n as int);
            assert forall|i: int| 0 <= i < len implies #[trigger] mask_bit(mask@, i) == stirs(
                pat,
                toks[cs[i] as int],
            ) by {
                assert(cs[i] < toks.len());
            }
        }
        let first: usize = bound_at(offsets, 0);
        let limit: usize = bound_at(offsets, n);
        let accept: usize = self.accept as usize;
        let mut row: usize = 0;
        let mut row_end: usize = bound_at(offsets, 1);
        let mut s: usize = 0;
        // Whether the current row is listed already.
        let mut listed: bool = false;
        proof {
            assert(b[0] <= b[n as int]);
            if n > 1 {
                assert(b[1] <= b[n as int]);
            }
            assert(b[0] <= b[1]);
        }
        let mut p: usize = next_set_bit(mask.as_slice(), first, limit);
        proof {
            assert(quiet(pat, toks, cs, b[0], p as int)) by {
                assert forall|i: int| b[0] <= i < p implies !stirs(
                    pat,
                    toks[#[trigger] cs[i] as int],
                ) by {
                    assert(!mask_bit(mask@, i));
                }
            }
            let q = min_of(p as int, row_end as int);
            self.lemma_quiet(cs, b[0], q);
        }
        while p < limit
            invariant
                self.wf(),
                codes_ok(cs, toks.len()),
                rows_ok(b, cs.len() as int),
                b == bounds(offsets@),
                cs == codes@,
                pat == self.pattern@,
                toks == self.tokens@,
                pred == row_contains(toks, cs, b, pat),
                n == row_count(b),
                n >= 1,
                len == cs.len(),
                mask@.len() == words_for(len as int),
                forall|i: int|
                    0 <= i < len ==> #[trigger] mask_bit(mask@, i) == stirs(
                        pat,
                        toks[cs[i] as int],
                    ),
                limit == b[n as int],
                limit <= len,
                accept == self.accept,
                row < n,
                row_end == b[row + 1],
                0 <= b[row as int] <= p <= limit,
                b[row as int] <= row_end <= limit,
                s < self.nstates,
                s != accept,
                out@ == selected(
                    (if listed {
                        row + 1
                    } else {
                        row as int
                    }) as nat,
                    pred,
                ),
                listed ==> p >= row_end && s == 0,
                p > row_end ==> quiet(pat, toks, cs, row_end as int, p as int),
                !listed ==> self.orig@[s as int] == run(
                    pat,
                    0,
                    decode(
                        toks,
                        cs.subrange(b[row as int], min_of(p as int, row_end as int)),
                    ),
                ),
            decreases limit - p,
        {
            if p >= row_end {
                // On to the row that holds `p`; the rows between are quiet.
                let ghost done = row;
                proof {
                    if !listed {
                        self.lemma_accept(s as int);
                        lemma_row_decides(pat, toks, row_codes(cs, b, row as int));
                        assert(!pred(row as int));
                        lemma_selected_skip(row as nat, (row + 1) as nat, pred);
                    }
                }
                row = gallop(offsets, row + 1, p, Ghost(cs.len() as int));
                proof {
                    if row == n {
                        assert(false);
                    }
                    assert(row < n);
                    if done + 1 < row {
                        assert(b[done + 1] <= b[row as int]);
                    }
                    self.lemma_quiet_rows(cs, b, done + 1, row as int);
                    lemma_selected_skip((done + 1) as nat, row as nat, pred);
                    lemma_bound_in(b, cs.len() as int, row + 1);
                    if row + 1 < n {
                        assert(b[row + 1] <= b[n as int]);
                    }
                    assert(b[row as int] <= b[row + 1]);
                    assert(quiet(pat, toks, cs, b[row as int], p as int));
                    self.lemma_quiet(cs, b[row as int], p as int);
                }
                row_end = bound_at(offsets, row + 1);
                s = 0;
                listed = false;
            }
            assert(!listed);
            assert(p < row_end);
            assert(cs[p as int] < toks.len());
            if !get_bit(mask.as_slice(), p) {
                proof {
                    self.lemma_row_on(cs, b[row as int], p as int);
                    self.lemma_accept(s as int);
                    let q = self.orig@[s as int] as int;
                    assert(!mask_bit(mask@, p as int));
                    assert(run(pat, q as nat, toks[cs[p as int] as int]) == 0);
                }
                if s == 0 {
                    // The run is over: leap to the next code that stirs.
                    let from: usize = p;
                    p = next_set_bit(mask.as_slice(), p + 1, limit);
                    proof {
                        assert forall|i: int| from <= i < p implies !stirs(
                            pat,
                            toks[#[trigger] cs[i] as int],
                        ) by {
                            assert(!mask_bit(mask@, i));
                        }
                        let e = min_of(p as int, row_end as int);
                        assert(quiet(pat, toks, cs, from as int, e));
                        self.lemma_quiet(cs, from as int, e);
                        let a = cs.subrange(b[row as int], from as int);
                        let z = cs.subrange(from as int, e);
                        assert(a + z =~= cs.subrange(b[row as int], e));
                        crate::dictionary::lemma_decode_concat(toks, a, z);
                        crate::text::lemma_run_concat(pat, 0, decode(toks, a), decode(toks, z));
                        if p > row_end {
                            assert(quiet(pat, toks, cs, row_end as int, p as int));
                        }
                    }
                } else {
                    s = 0;
                    p = p + 1;
                }
            } else {
                proof {
                    self.lemma_row_on(cs, b[row as int], p as int);
                }
                s = self.step(s, codes[p]);
                if s == accept {
                    proof {
                        self.lemma_accept(s as int);
                        let r = row_codes(cs, b, row as int);
                        let k = p + 1 - b[row as int];
                        assert(r.take(k) =~= cs.subrange(b[row as int], p + 1));
                        lemma_row_accepts(pat, toks, r, k);
                        assert(pred(row as int));
                    }
                    out.push(row as u64);
                    listed = true;
                    s = 0;
                    p = row_end;
                } else {
                    p = p + 1;
                }
            }
        }
        proof {
            if !listed {
                self.lemma_accept(s as int);
                lemma_row_decides(pat, toks, row_codes(cs, b, row as int));
                assert(!pred(row as int));
                lemma_selected_skip(row as nat, (row + 1) as nat, pred);
            }
            self.lemma_quiet_rows(cs, b, row + 1, n as int);
            lemma_selected_skip((row + 1) as nat, n as nat, pred);
        }
        out
    }
}

/// Whether the walk's tables are built for the pattern and the tokens.
pub open spec fn walk_supported(pattern: Seq<u8>, tokens: Seq<Seq<u8>>, walk: Walk) -> bool {
    let nc = class_count(pattern, tokens, tokens.len()) as int;
    let ns = reached_count(pattern, tokens, pattern.len() + 1) as int;
    let pairs = nc <= 256 && nc * nc * ns <= MAX_TRANS2_BYTES;
    pattern.len() == 0 || match walk {
        Walk::Class => true,
        Walk::Pair => pairs,
        Walk::Hyperflex => nc <= 256 && ns <= 64,
        Walk::HyperflexPair => pairs && ns <= 64,
    }
}

/// Whether the walk is available for the pattern and the tokens on a machine
/// with or without AVX-512 VBMI, whose byte shuffle the Hyperflex walks are laid
/// out for. The empty pattern walks nothing.
pub open spec fn walk_available(
    pattern: Seq<u8>,
    tokens: Seq<Seq<u8>>,
    walk: Walk,
    avx512_vbmi: bool,
) -> bool {
    &&& walk_supported(pattern, tokens, walk)
    &&& (walk is Hyperflex || walk is HyperflexPair) && pattern.len() > 0 ==> avx512_vbmi
}

/// The first state is always reached.
proof fn lemma_some_state(pattern: Seq<u8>, tokens: Seq<Seq<u8>>, k: nat)
    requires
        k > 0,
    ensures
        reached_count(pattern, tokens, k) >= 1,
    decreases k,
{
    if k == 1 {
        assert(reached(pattern, tokens, 0));
        assert(reached_count(pattern, tokens, 1) == reached_count(pattern, tokens, 0) + 1);
    } else {
        lemma_some_state(pattern, tokens, (k - 1) as nat);
    }
}

proof fn lemma_some_class(pattern: Seq<u8>, tokens: Seq<Seq<u8>>, k: nat)
    ensures
        class_count(pattern, tokens, k) >= 1,
    decreases k,
{
    if k > 0 {
        lemma_some_class(pattern, tokens, (k - 1) as nat);
    }
}

/// The class walk is available everywhere, and for the empty pattern so is
/// every walk. Otherwise the pair walk is available exactly when the pair table
/// is built; the Hyperflex walks need AVX-512 VBMI and at most 64 states; and
/// the paired Hyperflex walk is available only where the pair walk and the
/// plain Hyperflex walk are.
pub proof fn lemma_walks_available(
    pattern: Seq<u8>,
    tokens: Seq<Seq<u8>>,
    walk: Walk,
    avx512_vbmi: bool,
)
    ensures
        walk_available(pattern, tokens, Walk::Class, avx512_vbmi),
        pattern.len() == 0 ==> walk_available(pattern, tokens, walk, avx512_vbmi),
        pattern.len() > 0 ==> (walk_available(pattern, tokens, Walk::Pair, avx512_vbmi)
            <==> pair_bytes(
            class_count(pattern, tokens, tokens.len()) as int,
            reached_count(pattern, tokens, pattern.len() + 1) as int,
        ) > 0),
        pattern.len() > 0 && (walk is Hyperflex || walk is HyperflexPair) && walk_available(
            pattern,
            tokens,
            walk,
            avx512_vbmi,
        ) ==> avx512_vbmi && reached_count(pattern, tokens, pattern.len() + 1) <= 64,
        walk_available(pattern, tokens, Walk::HyperflexPair, avx512_vbmi) ==> walk_available(
            pattern,
            tokens,
            Walk::Pair,
            avx512_vbmi,
        ) && walk_available(pattern, tokens, Walk::Hyperflex, avx512_vbmi),
{
    let nc = class_count(pattern, tokens, tokens.len()) as int;
    let ns = reached_count(pattern, tokens, pattern.len() + 1) as int;
    lemma_some_class(pattern, tokens, tokens.len());
    lemma_some_state(pattern, tokens, pattern.len() + 1);
    assert(nc * nc * ns > 0) by (nonlinear_arith)
        requires
            nc >= 1,
            ns >= 1,
    ;
}

/// A `contains` query over the class-compressed token automaton. Compiled from
/// the dictionary alone, and reusable across code streams over it.
pub struct ClassSearcher {
    /// `None` for the empty pattern, which matches every row.
    inner: Option<Inner>,
    tokens: Ghost<Seq<Seq<u8>>>,
    pattern: Ghost<Seq<u8>>,
}

impl ClassSearcher {
    /// The pattern that the searcher looks for.
    pub closed spec fn pattern(&self) -> Seq<u8> {
        self.pattern@
    }

    /// The tokens of the dictionary that it was compiled from.
    pub closed spec fn tokens(&self) -> Seq<Seq<u8>> {
        self.tokens@
    }

    /// The searcher is that of its pattern and dictionary.
    pub closed spec fn wf(&self) -> bool {
        match self.inner {
            None => self.pattern@.len() == 0,
            Some(i) => i.wf() && i.pattern@ == self.pattern@ && i.tokens@ == self.tokens@,
        }
    }

    /// Compiles a searcher for `pattern` over a dictionary.
    pub fn compile_dict(dict_bytes: &[u8], dict_offsets: &[u32], pattern: &[u8]) -> (s: ClassSearcher)
        requires
            dict_ok(dict_bytes@, dict_offsets@),
            pattern@.len() <= MAX_PATTERN_LEN,
        ensures
            s.wf(),
            s.pattern() == pattern@,
            s.tokens() == tokens_of(dict_bytes@, dict_offsets@),
    {
        let ghost toks = tokens_of(dict_bytes@, dict_offsets@);
        let ghost p = pattern@;
        if pattern.len() == 0 {
            return ClassSearcher { inner: None, tokens: Ghost(toks), pattern: Ghost(p) };
        }
        let m: usize = pattern.len();
        let n: usize = token_count(dict_offsets);
        let delta = byte_automaton(pattern);
        let classes = classify(&delta, m, dict_bytes, dict_offsets, Ghost(p));
        let states = compact_states(&classes, m, Ghost(p), Ghost(toks));
        let nc: usize = classes.columns.len();
        let ns: usize = states.orig.len();
        let trans = build_trans(&classes, &states, m, Ghost(p), Ghost(toks));

        // Byte-wide class map, where the alphabet fits.
        let mut class_map8: Vec<u8> = Vec::new();
        if nc <= 256 {
            class_map8 = vec![0u8; CLASS_MAP_LEN];
            let mut c: usize = 0;
            while c < n
                invariant
                    c <= n,
                    n == toks.len(),
                    n <= MAX_TOKENS,
                    nc <= 256,
                    nc == classes.columns@.len(),
                    classes.wf(p, toks, n as int),
                    class_map8@.len() == CLASS_MAP_LEN,
                    forall|i: int|
                        0 <= i < c ==> #[trigger] class_map8@[i] == classes.class_of@[i],
                decreases n - c,
            {
                assert(classes.class_of@[c as int] < nc);
                class_map8.set(c, classes.class_of[c] as u8);
                c = c + 1;
            }
        }
        let trans2 = build_trans2(&trans, nc, ns);
        let mut hf_rows: Option<Vec<u8>> = None;
        let mut hf_rows2: Option<Vec<u8>> = None;
        if nc <= 256 && ns <= 64 {
            hf_rows = Some(widen(&trans, nc, ns));
            if let Some(t2) = &trans2 {
                proof {
                    lemma_pair_cell(0, 0, 0, nc as int, ns as int);
                }
                hf_rows2 = Some(widen(t2, nc * nc, ns));
            }
        }

        // The codes of a class other than the first, and the longest of their
        // tokens.
        let words: usize = if n == 0 {
            1
        } else {
            (n - 1) / 64 + 1
        };
        let mut set: Vec<u64> = vec![0u64; words];
        let mut lmax: usize = 0;
        let mut c: usize = 0;
        proof {
            assert forall|i: int| 0 <= i < n implies !#[trigger] mask_bit(set@, i) by {
                crate::bits::lemma_mask_zero(set@, i);
            }
        }
        while c < n
            invariant
                c <= n,
                n == toks.len(),
                n <= MAX_TOKENS,
                toks == tokens_of(dict_bytes@, dict_offsets@),
                dict_ok(dict_bytes@, dict_offsets@),
                classes.wf(p, toks, n as int),
                n <= 64 * words,
                set@.len() == words,
                forall|i: int|
                    0 <= i < n ==> #[trigger] mask_bit(set@, i) == (i < c && stirs(p, toks[i])),
                lmax == longest_stirring(p, toks, c as nat),
                lmax <= u32::MAX,
            decreases n - c,
        {
            let token = token_at(dict_bytes, dict_offsets, c);
            assert(classes.class_of@[c as int] == 0 <==> !stirs(p, toks[c as int]));
            if classes.class_of[c] != 0 {
                set_bit(&mut set, c);
                proof {
                    lemma_token_len(dict_bytes@, dict_offsets@, c as int);
                }
                if token.len() > lmax {
                    lmax = token.len();
                }
            }
            c = c + 1;
        }
        let combo: usize = combo_depth(m, lmax);
        let filter = Filter::from_bitmap(set.as_slice(), n);
        let ghost orig = Seq::new(ns as nat, |i: int| states.orig@[i] as nat);
        let inner = Inner {
            class_map8,
            class_map: classes.class_of,
            nclasses: nc,
            nstates: ns,
            trans,
            trans2,
            hf_rows,
            hf_rows2,
            accept: (ns - 1) as u8,
            filter,
            combo,
            orig: Ghost(orig),
            tokens: Ghost(toks),
            pattern: Ghost(p),
        };
        proof {
            assert forall|c: int, s: int| 0 <= c < toks.len() && 0 <= s < ns implies orig[
            inner.trans@[inner.class_map@[c] * ns + s] as int] == #[trigger] run(
                p,
                orig[s],
                toks[c],
            ) by {
                assert(inner.class_map@[c] < nc);
                let k = inner.class_map@[c] as int;
                assert(inner.trans@[k * ns + s] < ns);
                assert(orig[s] == states.orig@[s] as nat);
                let d = run(p, states.orig@[s] as nat, toks[c]);
            }
            assert(inner.follows());
        }
        ClassSearcher { inner: Some(inner), tokens: Ghost(toks), pattern: Ghost(p) }
    }

    /// The rows that contain the pattern, found by skipping: one pass marks
    /// the codes that stir the automaton, and the automaton walks only their
    /// runs. Any other code leads every state to 0, so the walk can leap
    /// between runs. A match cannot span rows, since the state starts over at
    /// each row.
    pub fn matching_rows_skip<O: Offset>(&self, codes: &[Token], code_offsets: &[O]) -> (out: Vec<u64>)
        requires
            self.wf(),
            self.pattern().len() > 0 ==> codes_ok(codes@, self.tokens().len()),
            self.pattern().len() > 0 ==> rows_ok(
                bounds(code_offsets@),
                codes@.len() as int,
            ),
        ensures
            out@ == selected(
                row_count(bounds(code_offsets@)),
                row_contains(self.tokens(), codes@, bounds(code_offsets@), self.pattern()),
            ),
    {
        let ghost b = bounds(code_offsets@);
        match &self.inner {
            None => {
                proof {
                    lemma_empty_pattern(self.pattern@, self.tokens@, codes@, b);
                }
                all_rows(code_offsets)
            },
            Some(inner) => inner.skip_scan(codes, code_offsets),
        }
    }

    /// Which of `spans`, as `[a, b)` code ranges, contain the pattern, walked
    /// four at a time. The pair walks interleave; other walks take the spans
    /// one by one.
    pub fn matching_spans_ilv4(&self, codes: &[Token], spans: &[(u32, u32)], walk: Walk) -> (out: Vec<
        bool,
    >)
        requires
            self.wf(),
            walk_supported(self.pattern(), self.tokens(), walk),
            self.pattern().len() > 0 ==> codes_ok(codes@, self.tokens().len()),
            self.pattern().len() > 0 ==> forall|i: int|
                0 <= i < spans@.len() ==> span_ok(#[trigger] spans@[i], codes@.len()),
        ensures
            out@.len() == spans@.len(),
            forall|i: int|
                0 <= i < spans@.len() ==> #[trigger] out@[i] == contains(
                    decode(self.tokens(), span_codes(codes@, spans@[i])),
                    self.pattern(),
                ),
    {
        let n: usize = spans.len();
        let mut out: Vec<bool> = Vec::new();
        match &self.inner {
            None => {
                let mut i: usize = 0;
                while i < n
                    invariant
                        i <= n,
                        n == spans@.len(),
                        self.pattern@.len() == 0,
                        out@.len() == i,
                        forall|k: int|
                            0 <= k < i ==> #[trigger] out@[k] == contains(
                                decode(self.tokens@, span_codes(codes@, spans@[k])),
                                self.pattern@,
                            ),
                    decreases n - i,
                {
                    proof {
                        lemma_contains_empty(
                            decode(self.tokens@, span_codes(codes@, spans@[i as int])),
                            self.pattern@,
                        );
                    }
                    out.push(true);
                    i = i + 1;
                }
            },
            Some(inner) => {
                let mut i: usize = 0;
                let four: bool = walk == Walk::Pair || walk == Walk::HyperflexPair;
                while i < n
                    invariant
                        i <= n,
                        n == spans@.len(),
                        inner.wf(),
                        inner.can(walk),
                        inner.tokens@ == self.tokens@,
                        inner.pattern@ == self.pattern@,
                        four ==> walk == Walk::Pair || walk == Walk::HyperflexPair,
                        codes_ok(codes@, self.tokens@.len()),
                        forall|k: int|
                            0 <= k < spans@.len() ==> span_ok(#[trigger] spans@[k], codes@.len()),
                        out@.len() == i,
                        forall|k: int|
                            0 <= k < i ==> #[trigger] out@[k] == contains(
                                decode(self.tokens@, span_codes(codes@, spans@[k])),
                                self.pattern@,
                            ),
                    decreases n - i,
                {
                    if four && n - i >= 4 {
                        assert(span_ok(spans@[i as int], codes@.len()));
                        assert(span_ok(spans@[i + 1], codes@.len()));
                        assert(span_ok(spans@[i + 2], codes@.len()));
                        assert(span_ok(spans@[i + 3], codes@.len()));
                        let p0: (u32, u32) = spans[i];
                        let p1: (u32, u32) = spans[i + 1];
                        let p2: (u32, u32) = spans[i + 2];
                        let p3: (u32, u32) = spans[i + 3];
                        let m4: [bool; 4] = if walk == Walk::Pair {
                            inner.walk4_pair(codes, p0, p1, p2, p3)
                        } else {
                            inner.walk4_hyperflex_pair(codes, p0, p1, p2, p3)
                        };
                        out.push(m4[0]);
                        out.push(m4[1]);
                        out.push(m4[2]);
                        out.push(m4[3]);
                        i = i + 4;
                    } else {
                        assert(span_ok(spans@[i as int], codes@.len()));
                        let (a, b) = spans[i];
                        let row = &codes[a as usize..b as usize];
                        assert(row@ == span_codes(codes@, spans@[i as int]));
                        proof {
                            assert forall|k: int| 0 <= k < row@.len() implies #[trigger] row@[k]
                                < self.tokens@.len() by {
                                assert(codes@[a + k] < self.tokens@.len());
                            }
                        }
                        let hit: bool = inner.walk_row(row, walk);
                        out.push(hit);
                        i = i + 1;
                    }
                }
            },
        }
        out
    }

    /// Whether one row's codes contain the pattern.
    pub fn row_matches(&self, codes: &[Token], walk: Walk) -> (r: bool)
        requires
            self.wf(),
            walk_supported(self.pattern(), self.tokens(), walk),
            self.pattern().len() > 0 ==> codes_ok(codes@, self.tokens().len()),
        ensures
            r == contains(decode(self.tokens(), codes@), self.pattern()),
    {
        match &self.inner {
            None => {
                proof {
                    lemma_contains_empty(decode(self.tokens@, codes@), self.pattern@);
                }
                true
            },
            Some(inner) => inner.walk_row(codes, walk),
        }
    }

    /// Compile-time shape, or `None` for the empty pattern.
    pub fn info(&self) -> (r: Option<ClassInfo>)
        requires
            self.wf(),
        ensures
            r is None <==> self.pattern().len() == 0,
            r matches Some(i) ==> {
                let p = self.pattern();
                let t = self.tokens();
                &&& i.nclasses == class_count(p, t, t.len())
                &&& i.nstates == reached_count(p, t, p.len() + 1)
                &&& i.trans2_bytes == pair_bytes(i.nclasses as int, i.nstates as int)
                &&& i.interesting == stirring_count(p, t, t.len())
                &&& i.combo == combo_of(p.len() as int, longest_stirring(p, t, t.len()) as int)
            },
    {
        match &self.inner {
            None => None,
            Some(inner) => {
                let ghost p = self.pattern@;
                let ghost t = self.tokens@;
                let mut interesting: usize = 0;
                let mut c: usize = 0;
                while c < inner.class_map.len()
                    invariant
                        inner.wf(),
                        inner.pattern@ == p,
                        inner.tokens@ == t,
                        c <= t.len(),
                        interesting <= c,
                        interesting == stirring_count(p, t, c as nat),
                    decreases t.len() - c,
                {
                    assert(inner.class_map@[c as int] == 0 <==> !stirs(p, t[c as int]));
                    if inner.class_map[c] != 0 {
                        interesting = interesting + 1;
                    }
                    c = c + 1;
                }
                let trans2_bytes: usize = match &inner.trans2 {
                    Some(t2) => t2.len(),
                    None => 0,
                };
                Some(
                    ClassInfo {
                        nclasses: inner.nclasses,
                        nstates: inner.nstates,
                        trans2_bytes,
                        interesting,
                        combo: inner.combo,
                    },
                )
            },
        }
    }

    /// Whether `walk` is available for this searcher on a machine with or
    /// without AVX-512 VBMI.
    pub fn supports(&self, walk: Walk, avx512_vbmi: bool) -> (r: bool)
        requires
            self.wf(),
        ensures
            r == walk_available(self.pattern(), self.tokens(), walk, avx512_vbmi),
    {
        match &self.inner {
            None => true,
            Some(inner) => match walk {
                Walk::Class => true,
                Walk::Pair => inner.trans2.is_some(),
                Walk::Hyperflex => inner.hf_rows.is_some() && avx512_vbmi,
                Walk::HyperflexPair => inner.hf_rows2.is_some() && avx512_vbmi,
            },
        }
    }

    /// The rows that contain the pattern, every row walked.
    pub fn matching_rows_unfiltered<O: Offset>(&self, codes: &[Token], code_offsets: &[O], walk: Walk) -> (out: Vec<
        u64,
    >)
        requires
            self.wf(),
            walk_supported(self.pattern(), self.tokens(), walk),
            self.pattern().len() > 0 ==> codes_ok(codes@, self.tokens().len()),
            self.pattern().len() > 0 ==> rows_ok(
                bounds(code_offsets@),
                codes@.len() as int,
            ),
        ensures
            out@ == selected(
                row_count(bounds(code_offsets@)),
                row_contains(self.tokens(), codes@, bounds(code_offsets@), self.pattern()),
            ),
    {
        match &self.inner {
            None => {
                proof {
                    lemma_empty_pattern(
                        self.pattern@,
                        self.tokens@,
                        codes@,
                        bounds(code_offsets@),
                    );
                }
                all_rows(code_offsets)
            },
            Some(inner) => {
                let with = WalkWith { inner, walk };
                rows_unfiltered(&with, codes, code_offsets)
            },
        }
    }

    /// The rows that contain the pattern: the rows that the combination
    /// prefilter leaves are walked.
    pub fn matching_rows<O: Offset>(&self, codes: &[Token], code_offsets: &[O], walk: Walk) -> (out: Vec<
        u64,
    >)
        requires
            self.wf(),
            walk_supported(self.pattern(), self.tokens(), walk),
            self.pattern().len() > 0 ==> codes_ok(codes@, self.tokens().len()),
            self.pattern().len() > 0 ==> rows_ok(
                bounds(code_offsets@),
                codes@.len() as int,
            ),
        ensures
            out@ == selected(
                row_count(bounds(code_offsets@)),
                row_contains(self.tokens(), codes@, bounds(code_offsets@), self.pattern()),
            ),
    {
        let ghost b = bounds(code_offsets@);
        match &self.inner {
            None => {
                proof {
                    lemma_empty_pattern(self.pattern@, self.tokens@, codes@, b);
                }
                all_rows(code_offsets)
            },
            Some(inner) => {
                let combined = combined_mask(&inner.filter, codes, inner.combo);
                proof {
                    let p = self.pattern@;
                    let t = self.tokens@;
                    let combo = inner.combo as int;
                    lemma_longest(p, t, t.len());
                    assert forall|i: int| 0 <= i < 64 * combined@.len() implies #[trigger] mask_bit(
                        combined@,
                        i,
                    ) == (i + combo <= codes@.len() && stirring_window(p, t, codes@, combo, i)) by {
                        lemma_window_stirs(&inner.filter, p, t, codes@, combo, i);
                    }
                    assert forall|r: int|
                        0 <= r < row_count(b) && #[trigger] row_contains(t, codes@, b, p)(
                            r,
                        ) implies windowed(combined@, b, combo)(r) by {
                        lemma_row_windowed(
                            p,
                            t,
                            codes@,
                            b,
                            combined@,
                            combo,
                            longest_stirring(p, t, t.len()) as int,
                            r,
                        );
                    }
                }
                // Dense masks keep the row loop; sparse ones gallop.
                let dense: bool = count_set_bits(&combined) > codes.len() / 8;
                let with = WalkWith { inner, walk };
                rows_masked(&with, codes, code_offsets, &combined, inner.combo, dense)
            },
        }
    }
}

/// Classes are counted by their first tokens: the tokens that lead some state
/// elsewhere than to 0 and lead some state elsewhere than each token before
/// them does, and one class for all that lead every state to 0.
pub proof fn lemma_classes_counted(pattern: Seq<u8>, tokens: Seq<Seq<u8>>, k: nat)
    ensures
        class_count(pattern, tokens, k) == 1 + set_int_range(0, k as int).filter(
            |c: int|
                stirs(pattern, tokens[c]) && forall|d: int|
                    0 <= d < c ==> !same_effect(pattern, #[trigger] tokens[d], tokens[c]),
        ).len(),
    decreases k,
{
    let f = |c: int|
        stirs(pattern, tokens[c]) && forall|d: int|
            0 <= d < c ==> !same_effect(pattern, #[trigger] tokens[d], tokens[c]);
    if k == 0 {
        lemma_count_none(f);
    } else {
        lemma_classes_counted(pattern, tokens, (k - 1) as nat);
        lemma_count_next(k - 1, f);
    }
}

/// Two tokens are of one class just when they lead every state short of the
/// full match to the same state.
pub proof fn lemma_same_effect_means(pattern: Seq<u8>, a: Seq<u8>, b: Seq<u8>)
    ensures
        same_effect(pattern, a, b) <==> forall|s: int|
            0 <= s < pattern.len() ==> #[trigger] run(pattern, s as nat, a) == run(
                pattern,
                s as nat,
                b,
            ),
{
}

/// The states are the first, the full match, and those that some token leads a
/// state short of the full match to.
pub proof fn lemma_states_counted(pattern: Seq<u8>, tokens: Seq<Seq<u8>>, k: nat)
    ensures
        reached_count(pattern, tokens, k) == set_int_range(0, k as int).filter(
            |s: int|
                s == 0 || s == pattern.len() || exists|c: int, q: int|
                    0 <= c < tokens.len() && 0 <= q < pattern.len() && #[trigger] run(
                        pattern,
                        q as nat,
                        tokens[c],
                    ) == s,
        ).len(),
    decreases k,
{
    let f = |s: int|
        s == 0 || s == pattern.len() || exists|c: int, q: int|
            0 <= c < tokens.len() && 0 <= q < pattern.len() && #[trigger] run(
                pattern,
                q as nat,
                tokens[c],
            ) == s;
    if k == 0 {
        lemma_count_none(f);
    } else {
        lemma_states_counted(pattern, tokens, (k - 1) as nat);
        lemma_count_next(k - 1, f);
    }
}

/// The pair table takes a byte for each two classes and state, and is built
/// just where there are at most 256 classes and it takes at most 4 MiB. The
/// Hyperflex rows need at most 256 classes and 64 states.
pub proof fn lemma_tables_built(pattern: Seq<u8>, tokens: Seq<Seq<u8>>)
    requires
        pattern.len() > 0,
    ensures
        ({
            let nc = class_count(pattern, tokens, tokens.len()) as int;
            let ns = reached_count(pattern, tokens, pattern.len() + 1) as int;
            let paired = nc <= 256 && nc * nc * ns <= 4194304;
            &&& pair_bytes(nc, ns) == if paired {
                nc * nc * ns
            } else {
                0
            }
            &&& walk_supported(pattern, tokens, Walk::Class)
            &&& walk_supported(pattern, tokens, Walk::Pair) <==> paired
            &&& walk_supported(pattern, tokens, Walk::Hyperflex) <==> nc <= 256 && ns <= 64
            &&& walk_supported(pattern, tokens, Walk::HyperflexPair) <==> paired && ns <= 64
        }),
{
}

/// A span's codes are those from its begin up to its end.
pub proof fn lemma_span_means(codes: Seq<Token>, span: (u32, u32))
    ensures
        span_codes(codes, span) == codes.subrange(span.0 as int, span.1 as int),
        span_ok(span, codes.len()) <==> span.0 <= span.1 && span.1 <= codes.len(),
{
}

} // verus!
