//! Byte strings, occurrences, and the matching automaton of a pattern.
//!
//! Everything the searchers promise is stated over the definitions here: what
//! it means for a byte string to contain a pattern, and how far into the
//! pattern a reader of the text has got.

use vstd::prelude::*;

verus! {

/// `needle` stands in `hay` at byte position `p`.
pub open spec fn occurs_at(hay: Seq<u8>, needle: Seq<u8>, p: int) -> bool {
    &&& 0 <= p
    &&& p + needle.len() <= hay.len()
    &&& hay.subrange(p, p + needle.len()) =~= needle
}

/// `hay` contains `needle` as a contiguous run of bytes.
pub open spec fn contains(hay: Seq<u8>, needle: Seq<u8>) -> bool {
    exists|p: int| occurs_at(hay, needle, p)
}

/// `s` begins with `prefix`.
pub open spec fn starts_with(s: Seq<u8>, prefix: Seq<u8>) -> bool {
    prefix.len() <= s.len() && s.take(prefix.len() as int) =~= prefix
}

/// `s` ends with `suffix`.
pub open spec fn ends_with(s: Seq<u8>, suffix: Seq<u8>) -> bool {
    suffix.len() <= s.len() && s.skip(s.len() - suffix.len()) =~= suffix
}

/// The first `k` bytes of `pattern` are the last `k` bytes of `text`.
pub open spec fn is_overlap(pattern: Seq<u8>, text: Seq<u8>, k: int) -> bool {
    &&& 0 <= k <= pattern.len()
    &&& k <= text.len()
    &&& text.skip(text.len() - k) =~= pattern.take(k)
}

/// The longest overlap of length at most `k`.
pub open spec fn overlap_upto(pattern: Seq<u8>, text: Seq<u8>, k: nat) -> nat
    decreases k,
{
    if k == 0 {
        0
    } else if is_overlap(pattern, text, k as int) {
        k
    } else {
        overlap_upto(pattern, text, (k - 1) as nat)
    }
}

/// The length of the longest prefix of `pattern` that is a suffix of `text`.
pub open spec fn overlap(pattern: Seq<u8>, text: Seq<u8>) -> nat {
    overlap_upto(pattern, text, pattern.len())
}

/// The matching state after reading `text`: the whole pattern once it has
/// occurred, and the longest overlap before that.
pub open spec fn state_after(pattern: Seq<u8>, text: Seq<u8>) -> nat {
    if contains(text, pattern) {
        pattern.len()
    } else {
        overlap(pattern, text)
    }
}

/// One step of the matching automaton. The full match is absorbing.
pub open spec fn step(pattern: Seq<u8>, s: nat, b: u8) -> nat {
    if s >= pattern.len() {
        s
    } else {
        overlap(pattern, pattern.take(s as int).push(b))
    }
}

/// The automaton run over `text` from state `s`.
pub open spec fn run(pattern: Seq<u8>, s: nat, text: Seq<u8>) -> nat
    decreases text.len(),
{
    if text.len() == 0 {
        s
    } else {
        step(pattern, run(pattern, s, text.drop_last()), text.last())
    }
}

/// Of two prefixes of one string the shorter is a prefix of the longer.
pub proof fn lemma_prefixes_nest(s: Seq<u8>, a: Seq<u8>, b: Seq<u8>)
    requires
        starts_with(s, a),
        starts_with(s, b),
        a.len() <= b.len(),
    ensures
        starts_with(b, a),
{
    assert(b.take(a.len() as int) =~= a) by {
        assert forall|i: int| 0 <= i < a.len() implies b[i] == a[i] by {
            assert(s.take(a.len() as int)[i] == a[i]);
            assert(s.take(b.len() as int)[i] == b[i]);
        }
    }
}

/// A prefix of a prefix is a prefix.
pub proof fn lemma_prefix_transitive(s: Seq<u8>, a: Seq<u8>, b: Seq<u8>)
    requires
        starts_with(s, b),
        starts_with(b, a),
    ensures
        starts_with(s, a),
{
    assert(s.take(a.len() as int) =~= a) by {
        assert forall|i: int| 0 <= i < a.len() implies s[i] == a[i] by {
            assert(s.take(b.len() as int)[i] == b[i]);
            assert(b.take(a.len() as int)[i] == a[i]);
        }
    }
}

/// A common start can be dropped from both sides of a prefix test.
pub proof fn lemma_prefix_concat(head: Seq<u8>, s: Seq<u8>, a: Seq<u8>)
    ensures
        starts_with(head + s, head + a) <==> starts_with(s, a),
{
    let hs = head + s;
    let ha = head + a;
    if starts_with(hs, ha) {
        assert(s.take(a.len() as int) =~= a) by {
            assert forall|i: int| 0 <= i < a.len() implies s[i] == a[i] by {
                assert(hs.take(ha.len() as int)[head.len() + i] == ha[head.len() + i]);
            }
        }
    }
    if starts_with(s, a) {
        assert(hs.take(ha.len() as int) =~= ha) by {
            assert forall|i: int| 0 <= i < ha.len() implies hs[i] == ha[i] by {
                if i >= head.len() {
                    assert(s.take(a.len() as int)[i - head.len()] == a[i - head.len()]);
                }
            }
        }
    }
}

pub proof fn lemma_overlap_upto(pattern: Seq<u8>, text: Seq<u8>, k: nat)
    requires
        k <= pattern.len(),
    ensures
        overlap_upto(pattern, text, k) <= k,
        is_overlap(pattern, text, overlap_upto(pattern, text, k) as int),
        forall|j: int| #[trigger]
            is_overlap(pattern, text, j) && j <= k ==> j <= overlap_upto(pattern, text, k),
    decreases k,
{
    if k == 0 {
        assert(text.skip(text.len() - 0) =~= pattern.take(0));
    } else if !is_overlap(pattern, text, k as int) {
        lemma_overlap_upto(pattern, text, (k - 1) as nat);
    }
}

/// `overlap` is an overlap, and no overlap is longer.
pub proof fn lemma_overlap(pattern: Seq<u8>, text: Seq<u8>)
    ensures
        overlap(pattern, text) <= pattern.len(),
        overlap(pattern, text) <= text.len(),
        is_overlap(pattern, text, overlap(pattern, text) as int),
        forall|j: int| #[trigger]
            is_overlap(pattern, text, j) ==> j <= overlap(pattern, text),
{
    lemma_overlap_upto(pattern, text, pattern.len());
}

/// The longest overlap is determined by being an overlap that no other exceeds.
pub proof fn lemma_overlap_is(pattern: Seq<u8>, text: Seq<u8>, k: nat)
    requires
        is_overlap(pattern, text, k as int),
        forall|j: int| #[trigger] is_overlap(pattern, text, j) ==> j <= k,
    ensures
        overlap(pattern, text) == k,
{
    lemma_overlap(pattern, text);
}

/// A shorter overlap of `text` is an overlap of every longer one.
pub proof fn lemma_overlap_nested(pattern: Seq<u8>, text: Seq<u8>, j: int, k: int)
    requires
        is_overlap(pattern, text, j),
        is_overlap(pattern, text, k),
        j <= k,
    ensures
        is_overlap(pattern, pattern.take(k), j),
{
    let t = pattern.take(k);
    assert(t.skip(t.len() - j) =~= pattern.take(j)) by {
        assert forall|i: int| 0 <= i < j implies t.skip(t.len() - j)[i] == pattern.take(j)[i] by {
            assert(t.skip(t.len() - j)[i] == t[k - j + i]);
            assert(text.skip(text.len() - k)[k - j + i] == pattern.take(k)[k - j + i]);
            assert(text.skip(text.len() - j)[i] == pattern.take(j)[i]);
        }
    }
}

/// Overlaps compose: an overlap of an overlap is an overlap of the text.
pub proof fn lemma_overlap_trans(pattern: Seq<u8>, text: Seq<u8>, j: int, k: int)
    requires
        is_overlap(pattern, text, k),
        is_overlap(pattern, pattern.take(k), j),
    ensures
        is_overlap(pattern, text, j),
{
    let t = pattern.take(k);
    assert(text.skip(text.len() - j) =~= pattern.take(j)) by {
        assert forall|i: int| 0 <= i < j implies text.skip(text.len() - j)[i] == pattern.take(j)[i] by {
            assert(t.skip(t.len() - j)[i] == pattern.take(j)[i]);
            assert(text.skip(text.len() - k)[k - j + i] == t[k - j + i]);
        }
    }
}

/// Growing the text by one byte grows an overlap by one, and only so.
pub proof fn lemma_overlap_push(pattern: Seq<u8>, text: Seq<u8>, b: u8, k: int)
    requires
        0 <= k < pattern.len(),
    ensures
        is_overlap(pattern, text.push(b), k + 1) <==> is_overlap(pattern, text, k) && pattern[k]
            == b,
{
    let t2 = text.push(b);
    if is_overlap(pattern, t2, k + 1) {
        let a = t2.skip(t2.len() - (k + 1));
        assert(a[k] == pattern.take(k + 1)[k]);
        assert(text.skip(text.len() - k) =~= pattern.take(k)) by {
            assert forall|i: int| 0 <= i < k implies text.skip(text.len() - k)[i]
                == pattern.take(k)[i] by {
                assert(a[i] == pattern.take(k + 1)[i]);
            }
        }
    }
    if is_overlap(pattern, text, k) && pattern[k] == b {
        let a = t2.skip(t2.len() - (k + 1));
        let c = pattern.take(k + 1);
        assert forall|i: int| 0 <= i < k + 1 implies a[i] == c[i] by {
            if i < k {
                assert(text.skip(text.len() - k)[i] == pattern.take(k)[i]);
            }
        }
        assert(a =~= c);
    }
}

/// What the automaton needs of the text read so far is its longest overlap.
pub proof fn lemma_overlap_step(pattern: Seq<u8>, text: Seq<u8>, b: u8)
    ensures
        overlap(pattern, text.push(b)) == overlap(
            pattern,
            pattern.take(overlap(pattern, text) as int).push(b),
        ),
{
    let s = overlap(pattern, text) as int;
    lemma_overlap(pattern, text);
    let t1 = text.push(b);
    let t2 = pattern.take(s).push(b);
    lemma_overlap(pattern, t2);
    let k = overlap(pattern, t2);
    assert forall|j: int| #[trigger] is_overlap(pattern, t1, j) implies is_overlap(pattern, t2, j) by {
        if j > 0 {
            lemma_overlap_push(pattern, text, b, j - 1);
            lemma_overlap_nested(pattern, text, j - 1, s);
            lemma_overlap_push(pattern, pattern.take(s), b, j - 1);
        } else {
            assert(t2.skip(t2.len() - 0) =~= pattern.take(0));
        }
    }
    assert(is_overlap(pattern, t1, k as int)) by {
        if k > 0 {
            lemma_overlap_push(pattern, pattern.take(s), b, k - 1);
            lemma_overlap_trans(pattern, text, k - 1, s);
            lemma_overlap_push(pattern, text, b, k - 1);
        } else {
            assert(t1.skip(t1.len() - 0) =~= pattern.take(0));
        }
    }
    lemma_overlap_is(pattern, t1, k);
}

/// A full overlap is an occurrence at the end of the text.
pub proof fn lemma_full_overlap(pattern: Seq<u8>, text: Seq<u8>)
    ensures
        is_overlap(pattern, text, pattern.len() as int) <==> occurs_at(
            text,
            pattern,
            text.len() - pattern.len(),
        ),
{
    if pattern.len() <= text.len() {
        let p = text.len() - pattern.len();
        assert(text.skip(p) =~= text.subrange(p, p + pattern.len()));
        assert(pattern.take(pattern.len() as int) =~= pattern);
    }
}

/// The empty pattern occurs in every text.
pub proof fn lemma_contains_empty(text: Seq<u8>, pattern: Seq<u8>)
    requires
        pattern.len() == 0,
    ensures
        contains(text, pattern),
{
    assert(occurs_at(text, pattern, 0)) by {
        assert(text.subrange(0, 0) =~= pattern);
    }
}

/// An occurrence stays one when the text grows at its end.
pub proof fn lemma_contains_extend(text: Seq<u8>, more: Seq<u8>, pattern: Seq<u8>)
    requires
        contains(text, pattern),
    ensures
        contains(text + more, pattern),
{
    let p = choose|p: int| occurs_at(text, pattern, p);
    assert((text + more).subrange(p, p + pattern.len()) =~= text.subrange(p, p + pattern.len()));
    assert(occurs_at(text + more, pattern, p));
}

/// A byte more makes an occurrence exactly when the pattern ends with it.
pub proof fn lemma_contains_push(text: Seq<u8>, b: u8, pattern: Seq<u8>)
    ensures
        contains(text.push(b), pattern) <==> contains(text, pattern) || is_overlap(
            pattern,
            text.push(b),
            pattern.len() as int,
        ),
{
    let t = text.push(b);
    lemma_full_overlap(pattern, t);
    if contains(text, pattern) {
        lemma_contains_extend(text, seq![b], pattern);
        assert(text + seq![b] =~= t);
    }
    if contains(t, pattern) {
        let p = choose|p: int| occurs_at(t, pattern, p);
        if p + pattern.len() < t.len() {
            assert(text.subrange(p, p + pattern.len()) =~= t.subrange(p, p + pattern.len()));
            assert(occurs_at(text, pattern, p));
        }
    }
}

/// Before the first occurrence the state is short of the pattern's length.
pub proof fn lemma_state_bound(pattern: Seq<u8>, text: Seq<u8>)
    ensures
        state_after(pattern, text) <= pattern.len(),
        state_after(pattern, text) == pattern.len() <==> contains(text, pattern),
{
    lemma_overlap(pattern, text);
    lemma_full_overlap(pattern, text);
}

/// The automaton's state is `state_after` of what it has read.
pub proof fn lemma_run_is_state(pattern: Seq<u8>, text: Seq<u8>)
    requires
        pattern.len() > 0,
    ensures
        run(pattern, 0, text) == state_after(pattern, text),
    decreases text.len(),
{
    if text.len() == 0 {
        lemma_overlap(pattern, text);
        lemma_state_bound(pattern, text);
        assert(!contains(text, pattern));
    } else {
        let t = text.drop_last();
        let b = text.last();
        lemma_run_is_state(pattern, t);
        assert(t.push(b) =~= text);
        lemma_contains_push(t, b, pattern);
        lemma_state_bound(pattern, t);
        lemma_state_bound(pattern, text);
        lemma_overlap_step(pattern, t, b);
        lemma_overlap(pattern, text);
    }
}

/// A run over two texts in turn is the run over their concatenation.
pub proof fn lemma_run_concat(pattern: Seq<u8>, s: nat, a: Seq<u8>, b: Seq<u8>)
    ensures
        run(pattern, s, a + b) == run(pattern, run(pattern, s, a), b),
    decreases b.len(),
{
    if b.len() == 0 {
        assert(a + b =~= a);
    } else {
        assert((a + b).drop_last() =~= a + b.drop_last());
        assert((a + b).last() == b.last());
        lemma_run_concat(pattern, s, a, b.drop_last());
    }
}

/// States stay within the pattern.
pub proof fn lemma_run_bound(pattern: Seq<u8>, s: nat, text: Seq<u8>)
    requires
        s <= pattern.len(),
    ensures
        run(pattern, s, text) <= pattern.len(),
    decreases text.len(),
{
    if text.len() > 0 {
        lemma_run_bound(pattern, s, text.drop_last());
        let r = run(pattern, s, text.drop_last());
        lemma_overlap(pattern, pattern.take(r as int).push(text.last()));
    }
}

/// A full match stays one.
pub proof fn lemma_run_absorbing(pattern: Seq<u8>, text: Seq<u8>)
    ensures
        run(pattern, pattern.len(), text) == pattern.len(),
    decreases text.len(),
{
    if text.len() > 0 {
        lemma_run_absorbing(pattern, text.drop_last());
    }
}

/// Two states that agree after the first byte agree after the whole text.
pub proof fn lemma_run_first(pattern: Seq<u8>, s: nat, t: nat, text: Seq<u8>)
    requires
        text.len() > 0,
        step(pattern, s, text[0]) == step(pattern, t, text[0]),
    ensures
        run(pattern, s, text) == run(pattern, t, text),
{
    let head = seq![text[0]];
    let tail = text.skip(1);
    assert(head + tail =~= text);
    lemma_run_concat(pattern, s, head, tail);
    lemma_run_concat(pattern, t, head, tail);
    lemma_run_one(pattern, s, text[0]);
    lemma_run_one(pattern, t, text[0]);
}

/// A run over a single byte is one step.
pub proof fn lemma_run_one(pattern: Seq<u8>, s: nat, b: u8)
    ensures
        run(pattern, s, seq![b]) == step(pattern, s, b),
{
    assert(seq![b].drop_last() =~= Seq::<u8>::empty());
    assert(run(pattern, s, Seq::<u8>::empty()) == s);
    assert(seq![b].last() == b);
}

/// Having read all but the last byte of `text.take(i + 1)` is having read
/// `text.take(i)`.
pub proof fn lemma_run_take(pattern: Seq<u8>, s: nat, text: Seq<u8>, i: int)
    requires
        0 <= i < text.len(),
    ensures
        run(pattern, s, text.take(i + 1)) == step(
            pattern,
            run(pattern, s, text.take(i)),
            text[i],
        ),
{
    assert(text.take(i + 1).drop_last() =~= text.take(i));
    assert(text.take(i + 1).last() == text[i]);
}

/// The state after reading all but the first byte of the first `s`.
pub open spec fn border(pattern: Seq<u8>, s: int) -> nat {
    overlap(pattern, pattern.subrange(1, s))
}

/// A byte that does not extend the matched prefix leads where it leads from
/// the longest border of that prefix.
pub proof fn lemma_fail_row(pattern: Seq<u8>, s: int, b: u8)
    requires
        1 <= s < pattern.len(),
    ensures
        border(pattern, s) < s,
        b != pattern[s] ==> step(pattern, s as nat, b) == step(pattern, border(pattern, s), b),
        b == pattern[s] ==> step(pattern, s as nat, b) == s + 1,
{
    let f = border(pattern, s);
    let t = pattern.take(s);
    let u = pattern.subrange(1, s);
    lemma_overlap(pattern, u);
    assert(f <= u.len());
    let tb = t.push(b);
    let ub = u.push(b);
    lemma_overlap(pattern, tb);
    lemma_overlap(pattern, ub);
    if b == pattern[s] {
        assert(is_overlap(pattern, t, s)) by {
            assert(t.skip(0) =~= pattern.take(s));
        }
        lemma_overlap_push(pattern, t, b, s);
        assert(is_overlap(pattern, tb, s + 1));
    } else {
        lemma_overlap_step(pattern, u, b);
        assert(!is_overlap(pattern, tb, s + 1)) by {
            lemma_overlap_push(pattern, t, b, s);
        }
        let k = overlap(pattern, ub);
        assert(tb.skip(1) =~= ub);
        assert(is_overlap(pattern, tb, k as int)) by {
            assert(tb.skip(tb.len() - k) =~= ub.skip(ub.len() - k));
        }
        assert forall|j: int| #[trigger] is_overlap(pattern, tb, j) implies j <= k by {
            assert(j <= s);
            assert(ub.skip(ub.len() - j) =~= tb.skip(tb.len() - j));
            assert(is_overlap(pattern, ub, j));
        }
        lemma_overlap_is(pattern, tb, k);
        assert(step(pattern, f, b) == k);
    }
}

/// From state 0 only the pattern's first byte leads on.
pub proof fn lemma_row_zero(pattern: Seq<u8>, b: u8)
    requires
        pattern.len() > 0,
    ensures
        step(pattern, 0, b) == (if b == pattern[0] {
            1nat
        } else {
            0nat
        }),
{
    let e = pattern.take(0);
    let eb = e.push(b);
    lemma_overlap(pattern, eb);
    lemma_overlap_push(pattern, e, b, 0);
    assert(is_overlap(pattern, e, 0)) by {
        assert(e.skip(0) =~= pattern.take(0));
    }
}

/// A text contains a pattern just when it is some bytes, the pattern, and some
/// bytes.
pub proof fn lemma_contains_splits(hay: Seq<u8>, needle: Seq<u8>)
    ensures
        contains(hay, needle) <==> exists|a: Seq<u8>, b: Seq<u8>| hay == #[trigger] (a + needle + b),
{
    if contains(hay, needle) {
        let p = choose|p: int| occurs_at(hay, needle, p);
        let a = hay.take(p);
        let b = hay.skip(p + needle.len());
        assert(hay =~= a + hay.subrange(p, p + needle.len()) + b);
        assert(hay == a + needle + b);
    }
    if exists|a: Seq<u8>, b: Seq<u8>| hay == #[trigger] (a + needle + b) {
        let (a, b) = choose|a: Seq<u8>, b: Seq<u8>| hay == #[trigger] (a + needle + b);
        assert(hay.subrange(a.len() as int, (a.len() + needle.len()) as int) =~= needle);
        assert(occurs_at(hay, needle, a.len() as int));
    }
}

/// A text begins with a prefix just when it is the prefix and some bytes, and
/// ends with a suffix just when it is some bytes and the suffix.
pub proof fn lemma_affixes_split(s: Seq<u8>, affix: Seq<u8>)
    ensures
        starts_with(s, affix) <==> exists|rest: Seq<u8>| s == #[trigger] (affix + rest),
        ends_with(s, affix) <==> exists|head: Seq<u8>| s == #[trigger] (head + affix),
{
    let n = affix.len() as int;
    if starts_with(s, affix) {
        assert(s =~= s.take(n) + s.skip(n));
        assert(s == affix + s.skip(n));
    }
    if exists|rest: Seq<u8>| s == #[trigger] (affix + rest) {
        let rest = choose|rest: Seq<u8>| s == #[trigger] (affix + rest);
        assert(s.take(n) =~= affix);
    }
    if ends_with(s, affix) {
        let k = s.len() - n;
        assert(s =~= s.take(k) + s.skip(k));
        assert(s == s.take(k) + affix);
    }
    if exists|head: Seq<u8>| s == #[trigger] (head + affix) {
        let head = choose|head: Seq<u8>| s == #[trigger] (head + affix);
        assert(s.skip(s.len() - n) =~= affix);
    }
}

/// What an automaton reads from state `s` on is what it reads after the first
/// `s` bytes of the pattern: it comes to the full match just when those bytes
/// and the text contain the pattern, and else to the longest prefix of the
/// pattern that they end with.
pub proof fn lemma_run_reads(pattern: Seq<u8>, s: nat, text: Seq<u8>)
    requires
        s < pattern.len(),
    ensures
        run(pattern, s, text) <= pattern.len(),
        run(pattern, s, text) == pattern.len() <==> exists|a: Seq<u8>, b: Seq<u8>|
            pattern.take(s as int) + text == #[trigger] (a + pattern + b),
        run(pattern, s, text) < pattern.len() ==> exists|head: Seq<u8>|
            pattern.take(s as int) + text == #[trigger] (head + pattern.take(
                run(pattern, s, text) as int,
            )),
        run(pattern, s, text) < pattern.len() ==> forall|head: Seq<u8>, k: int|
            run(pattern, s, text) < k <= pattern.len() ==> pattern.take(s as int) + text
                != #[trigger] (head + pattern.take(k)),
{
    let known = pattern.take(s as int);
    let whole = known + text;
    let q = run(pattern, s, text);
    lemma_run_concat(pattern, 0, known, text);
    lemma_run_is_state(pattern, known);
    lemma_run_is_state(pattern, whole);
    lemma_state_bound(pattern, whole);
    lemma_overlap(pattern, whole);
    assert(run(pattern, 0, known) == s) by {
        if contains(known, pattern) {
            let p = choose|p: int| occurs_at(known, pattern, p);
        }
        assert(known.skip(0) =~= pattern.take(s as int));
        assert(is_overlap(pattern, known, s as int));
        lemma_overlap(pattern, known);
    }
    lemma_contains_splits(whole, pattern);
    if q < pattern.len() {
        let tail = pattern.take(q as int);
        assert(ends_with(whole, tail));
        lemma_affixes_split(whole, tail);
        assert forall|head: Seq<u8>, k: int| q < k <= pattern.len() implies whole
            != #[trigger] (head + pattern.take(k)) by {
            if whole == head + pattern.take(k) {
                assert(whole.skip(whole.len() - k) =~= pattern.take(k));
                assert(is_overlap(pattern, whole, k));
            }
        }
    }
}

} // verus!
