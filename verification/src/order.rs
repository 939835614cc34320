//! Bytewise-lexicographic order, and dictionaries sorted by it.

use crate::text::starts_with;
use crate::types::{MAX_TOKENS, MAX_TOKEN_SIZE};
use vstd::prelude::*;

verus! {

/// `a` and `b` agree up to `k`, where `a` ends or has the smaller byte.
pub open spec fn less_at(a: Seq<u8>, b: Seq<u8>, k: int) -> bool {
    &&& 0 <= k <= a.len()
    &&& k < b.len()
    &&& a.take(k) =~= b.take(k)
    &&& (k == a.len() || a[k] < b[k])
}

/// `a` comes before `b` in bytewise-lexicographic order.
pub open spec fn less(a: Seq<u8>, b: Seq<u8>) -> bool {
    exists|k: int| less_at(a, b, k)
}

/// Unique tokens in bytewise-lexicographic order.
pub open spec fn sorted(tokens: Seq<Seq<u8>>) -> bool {
    forall|i: int, j: int|
        0 <= i < j < tokens.len() ==> less(#[trigger] tokens[i], #[trigger] tokens[j])
}

/// Every token has from 1 to [`MAX_TOKEN_SIZE`] bytes, and ids name them all.
pub open spec fn sized(tokens: Seq<Seq<u8>>) -> bool {
    &&& tokens.len() <= MAX_TOKENS
    &&& forall|i: int|
        0 <= i < tokens.len() ==> 1 <= (#[trigger] tokens[i]).len() <= MAX_TOKEN_SIZE
}

/// The byte `b` is a token of its own.
pub open spec fn has_byte(tokens: Seq<Seq<u8>>, b: u8) -> bool {
    exists|i: int| 0 <= i < tokens.len() && #[trigger] tokens[i] =~= seq![b]
}

/// Every byte is a token of its own.
pub open spec fn complete(tokens: Seq<Seq<u8>>) -> bool {
    forall|b: u8| #[trigger] has_byte(tokens, b)
}

/// What search asks of a dictionary.
pub open spec fn conformant(tokens: Seq<Seq<u8>>) -> bool {
    sorted(tokens) && sized(tokens) && complete(tokens)
}

/// Where two byte strings first differ, or the shorter of them ends.
pub proof fn first_difference(a: Seq<u8>, b: Seq<u8>) -> (k: int)
    ensures
        0 <= k <= a.len(),
        k <= b.len(),
        a.take(k) =~= b.take(k),
        k < a.len() && k < b.len() ==> a[k] != b[k],
    decreases a.len(),
{
    if a.len() == 0 || b.len() == 0 {
        0
    } else {
        let k = first_difference(a.drop_last(), b);
        if k < a.len() - 1 {
            assert(a.drop_last().take(k) =~= a.take(k));
            k
        } else {
            assert(a.drop_last().take(k) =~= a.take(k));
            if k < b.len() && a[k] == b[k] {
                assert(a.take(k + 1) =~= b.take(k + 1)) by {
                    assert forall|i: int| 0 <= i < k + 1 implies a[i] == b[i] by {
                        if i < k {
                            assert(a.take(k)[i] == b.take(k)[i]);
                        }
                    }
                }
                k + 1
            } else {
                k
            }
        }
    }
}

/// The order is asymmetric.
pub proof fn lemma_less_asymmetric(a: Seq<u8>, b: Seq<u8>)
    requires
        less(a, b),
    ensures
        !less(b, a),
        a != b,
{
    let k = choose|k: int| less_at(a, b, k);
    if less(b, a) {
        let l = choose|l: int| less_at(b, a, l);
        if k < l {
            assert(b.take(l)[k] == a.take(l)[k]);
        } else if l < k {
            assert(a.take(k)[l] == b.take(k)[l]);
        }
    }
}

/// The order is transitive.
pub proof fn lemma_less_transitive(a: Seq<u8>, b: Seq<u8>, c: Seq<u8>)
    requires
        less(a, b),
        less(b, c),
    ensures
        less(a, c),
{
    let k = choose|k: int| less_at(a, b, k);
    let l = choose|l: int| less_at(b, c, l);
    let m = if k < l {
        k
    } else {
        l
    };
    assert(a.take(m) =~= c.take(m)) by {
        assert forall|i: int| 0 <= i < m implies a[i] == c[i] by {
            assert(a.take(k)[i] == b.take(k)[i]);
            assert(b.take(l)[i] == c.take(l)[i]);
        }
    }
    if k < l {
        assert(b.take(l)[k] == c.take(l)[k]);
    } else if l < k {
        assert(a.take(k)[l] == b.take(k)[l]);
    }
    assert(less_at(a, c, m));
}

/// A string that begins with `prefix` does not come before it.
pub proof fn lemma_prefix_not_less(s: Seq<u8>, prefix: Seq<u8>)
    requires
        starts_with(s, prefix),
    ensures
        !less(s, prefix),
{
    if less(s, prefix) {
        let k = choose|k: int| less_at(s, prefix, k);
        assert(s.take(prefix.len() as int)[k] == prefix[k]);
    }
}

/// Between `prefix` and a string that begins with it, every string begins with
/// it.
pub proof fn lemma_prefix_between(a: Seq<u8>, b: Seq<u8>, prefix: Seq<u8>)
    requires
        !less(a, prefix),
        less(a, b),
        starts_with(b, prefix),
    ensures
        starts_with(a, prefix),
{
    let k = first_difference(a, prefix);
    if k < prefix.len() {
        if k == a.len() || a[k] < prefix[k] {
            assert(less_at(a, prefix, k));
        } else {
            assert(b.take(k) =~= a.take(k)) by {
                assert forall|i: int| 0 <= i < k implies b[i] == a[i] by {
                    assert(b.take(prefix.len() as int)[i] == prefix[i]);
                    assert(a.take(k)[i] == prefix.take(k)[i]);
                }
            }
            assert(b.take(prefix.len() as int)[k] == prefix[k]);
            assert(less_at(b, a, k));
            lemma_less_asymmetric(a, b);
        }
    } else {
        assert(prefix.take(k) =~= prefix);
    }
}

/// Tokens of a sorted dictionary are distinct.
pub proof fn lemma_sorted_unique(tokens: Seq<Seq<u8>>, i: int, j: int)
    requires
        sorted(tokens),
        0 <= i < tokens.len(),
        0 <= j < tokens.len(),
        tokens[i] == tokens[j],
    ensures
        i == j,
{
    if i < j {
        lemma_less_asymmetric(tokens[i], tokens[j]);
    } else if j < i {
        lemma_less_asymmetric(tokens[j], tokens[i]);
    }
}

/// Whether `a` comes before `b`.
pub fn is_less(a: &[u8], b: &[u8]) -> (r: bool)
    ensures
        r == less(a@, b@),
{
    let mut k: usize = 0;
    while k < a.len() && k < b.len() && a[k] == b[k]
        invariant
            k <= a@.len(),
            k <= b@.len(),
            forall|i: int| 0 <= i < k ==> a@[i] == b@[i],
        decreases a@.len() - k,
    {
        k = k + 1;
    }
    assert(a@.take(k as int) =~= b@.take(k as int));
    if k < b.len() && (k == a.len() || a[k] < b[k]) {
        assert(less_at(a@, b@, k as int));
        true
    } else {
        proof {
            if k < a@.len() {
                if k == b@.len() || b@[k as int] < a@[k as int] {
                    assert(less_at(b@, a@, k as int));
                    lemma_less_asymmetric(b@, a@);
                }
            } else {
                assert(a@ =~= b@);
                if less(a@, b@) {
                    lemma_less_asymmetric(a@, b@);
                }
            }
        }
        false
    }
}

/// Whether `s` begins with `prefix`.
pub fn has_prefix(s: &[u8], prefix: &[u8]) -> (r: bool)
    ensures
        r == starts_with(s@, prefix@),
{
    if prefix.len() > s.len() {
        return false;
    }
    let mut k: usize = 0;
    while k < prefix.len()
        invariant
            k <= prefix@.len() <= s@.len(),
            forall|i: int| 0 <= i < k ==> s@[i] == prefix@[i],
        decreases prefix@.len() - k,
    {
        if s[k] != prefix[k] {
            assert(s@.take(prefix@.len() as int)[k as int] != prefix@[k as int]);
            return false;
        }
        k = k + 1;
    }
    true
}

/// The order goes by the first byte, and where that is the same by the rest:
/// nothing comes before the empty string, and it before all others.
pub proof fn lemma_order_goes_by_first_byte(a: Seq<u8>, b: Seq<u8>, x: u8, y: u8)
    ensures
        !less(a, Seq::empty()),
        less(Seq::empty(), a.push(x)),
        less(seq![x] + a, seq![y] + b) <==> x < y || (x == y && less(a, b)),
{
    let e = Seq::<u8>::empty();
    assert(e.take(0) =~= a.push(x).take(0));
    assert(less_at(e, a.push(x), 0));
    let p = seq![x] + a;
    let q = seq![y] + b;
    if less(p, q) {
        let k = choose|k: int| less_at(p, q, k);
        if k > 0 {
            assert(p.take(k)[0] == q.take(k)[0]);
            assert forall|i: int| 0 <= i < k - 1 implies #[trigger] a.take(k - 1)[i] == b.take(k - 1)[i] by {
                assert(p.take(k)[i + 1] == q.take(k)[i + 1]);
            }
            assert(a.take(k - 1) =~= b.take(k - 1));
            assert(less_at(a, b, k - 1));
        }
    }
    if x < y {
        assert(p.take(0) =~= q.take(0));
        assert(less_at(p, q, 0));
    }
    if x == y && less(a, b) {
        let k = choose|k: int| less_at(a, b, k);
        assert forall|i: int| 0 <= i < k + 1 implies #[trigger] p.take(k + 1)[i] == q.take(k + 1)[i] by {
            if i > 0 {
                assert(a.take(k)[i - 1] == b.take(k)[i - 1]);
            }
        }
        assert(p.take(k + 1) =~= q.take(k + 1));
        assert(less_at(p, q, k + 1));
    }
}

} // verus!
