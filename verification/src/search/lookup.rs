//! Lookup of tokens by prefix in a sorted dictionary.

use crate::dictionary::DictView;
use crate::order::{
    has_prefix, is_less, lemma_less_transitive, lemma_prefix_between, lemma_prefix_not_less, less,
    sized, sorted,
};
use crate::text::starts_with;
use crate::types::{Token, TokenRange, MAX_TOKEN_SIZE};
use vstd::prelude::*;

verus! {

/// The range holds exactly the tokens that begin with `prefix`.
pub open spec fn is_prefix_range(range: TokenRange, tokens: Seq<Seq<u8>>, prefix: Seq<u8>) -> bool {
    forall|t: int| #[trigger]
        range.has(t) <==> 0 <= t < tokens.len() && starts_with(tokens[t], prefix)
}

/// The range of tokens that begin with `prefix`, empty where none does.
pub fn prefix_range(dict: DictView<'_>, prefix: &[u8]) -> (range: TokenRange)
    requires
        dict.wf(),
        sorted(dict.tokens()),
    ensures
        is_prefix_range(range, dict.tokens(), prefix@),
{
    let ghost toks = dict.tokens();
    let ghost p = prefix@;
    let n: usize = dict.num_tokens();
    // The first token that does not come before the prefix.
    let mut lo: usize = 0;
    let mut hi: usize = n;
    while lo < hi
        invariant
            dict.wf(),
            toks == dict.tokens(),
            sorted(toks),
            p == prefix@,
            n == toks.len(),
            n <= 65536,
            lo <= hi <= n,
            forall|t: int| 0 <= t < lo ==> less(#[trigger] toks[t], p),
            forall|t: int| hi <= t < n ==> !less(#[trigger] toks[t], p),
        decreases hi - lo,
    {
        let mid: usize = lo + (hi - lo) / 2;
        if is_less(dict.token(mid as Token), prefix) {
            proof {
                assert forall|t: int| 0 <= t < mid + 1 implies less(#[trigger] toks[t], p) by {
                    if t < mid {
                        lemma_less_transitive(toks[t], toks[mid as int], p);
                    }
                }
            }
            lo = mid + 1;
        } else {
            proof {
                assert forall|t: int| mid <= t < n implies !less(#[trigger] toks[t], p) by {
                    if t > mid && less(toks[t], p) {
                        lemma_less_transitive(toks[mid as int], toks[t], p);
                    }
                }
            }
            hi = mid;
        }
    }
    // The first token from there on that does not begin with it.
    let begin: usize = lo;
    let mut hi: usize = n;
    proof {
        assert forall|t: int| 0 <= t < begin implies !starts_with(#[trigger] toks[t], p) by {
            if starts_with(toks[t], p) {
                lemma_prefix_not_less(toks[t], p);
            }
        }
    }
    while lo < hi
        invariant
            dict.wf(),
            toks == dict.tokens(),
            sorted(toks),
            p == prefix@,
            n == toks.len(),
            n <= 65536,
            begin <= lo <= hi <= n,
            forall|t: int| begin <= t < n ==> !less(#[trigger] toks[t], p),
            forall|t: int| begin <= t < lo ==> starts_with(#[trigger] toks[t], p),
            forall|t: int| hi <= t < n ==> !starts_with(#[trigger] toks[t], p),
        decreases hi - lo,
    {
        let mid: usize = lo + (hi - lo) / 2;
        if has_prefix(dict.token(mid as Token), prefix) {
            proof {
                assert forall|t: int| begin <= t < mid + 1 implies starts_with(
                    #[trigger] toks[t],
                    p,
                ) by {
                    if t < mid {
                        lemma_prefix_between(toks[t], toks[mid as int], p);
                    }
                }
            }
            lo = mid + 1;
        } else {
            proof {
                assert forall|t: int| mid <= t < n implies !starts_with(#[trigger] toks[t], p) by {
                    if t > mid && starts_with(toks[t], p) {
                        lemma_prefix_between(toks[mid as int], toks[t], p);
                    }
                }
            }
            hi = mid;
        }
    }
    if begin == lo {
        TokenRange::empty_range()
    } else {
        TokenRange { begin: begin as Token, last: (lo - 1) as Token }
    }
}

/// `t` is the longest token that `s` begins with.
pub open spec fn is_longest(tokens: Seq<Seq<u8>>, s: Seq<u8>, t: int) -> bool {
    &&& 0 <= t < tokens.len()
    &&& starts_with(s, tokens[t])
    &&& forall|u: int|
        0 <= u < tokens.len() && starts_with(s, #[trigger] tokens[u]) ==> tokens[u].len()
            <= tokens[t].len()
}

/// No token is a prefix of `s`.
pub open spec fn no_token(tokens: Seq<Seq<u8>>, s: Seq<u8>) -> bool {
    forall|u: int| 0 <= u < tokens.len() ==> !starts_with(s, #[trigger] tokens[u])
}

/// The longest token that `s` begins with, and its length. The lengths are
/// tried from the longest down: the shortest token of a prefix range sorts
/// first, so a first token of the prefix's own length is the prefix itself.
pub fn longest_token(dict: DictView<'_>, s: &[u8]) -> (r: Option<(Token, usize)>)
    requires
        dict.wf(),
        sorted(dict.tokens()),
        sized(dict.tokens()),
    ensures
        r matches Some((t, len)) ==> is_longest(dict.tokens(), s@, t as int) && len
            == dict.tokens()[t as int].len() && 1 <= len <= MAX_TOKEN_SIZE && len <= s@.len(),
        r is None ==> no_token(dict.tokens(), s@),
{
    let ghost toks = dict.tokens();
    let mut len: usize = if s.len() < MAX_TOKEN_SIZE {
        s.len()
    } else {
        MAX_TOKEN_SIZE
    };
    while len > 0
        invariant
            dict.wf(),
            toks == dict.tokens(),
            sorted(toks),
            sized(toks),
            len <= s@.len(),
            len <= MAX_TOKEN_SIZE,
            forall|u: int|
                0 <= u < toks.len() && starts_with(s@, #[trigger] toks[u]) ==> toks[u].len()
                    <= len,
        decreases len,
    {
        let head = &s[0..len];
        assert(head@ =~= s@.take(len as int));
        let range = prefix_range(dict, head);
        if !range.is_empty() {
            assert(range.has(range.begin as int));
            if dict.token_len(range.begin) == len {
                proof {
                    assert(toks[range.begin as int] =~= head@) by {
                        assert(toks[range.begin as int].take(len as int) =~= toks[range.begin as int]);
                    }
                }
                return Some((range.begin, len));
            }
        }
        proof {
            assert forall|u: int|
                0 <= u < toks.len() && starts_with(s@, #[trigger] toks[u]) implies toks[u].len() <= len
                - 1 by {
                if toks[u].len() == len {
                    assert(toks[u] =~= head@);
                    assert(starts_with(toks[u], head@)) by {
                        assert(toks[u].take(len as int) =~= head@);
                    }
                    assert(range.has(u));
                    assert(range.has(range.begin as int));
                    if range.begin < u {
                        assert(less(toks[range.begin as int], toks[u]));
                        lemma_prefix_not_less(toks[range.begin as int], head@);
                    }
                }
            }
        }
        len = len - 1;
    }
    proof {
        assert forall|u: int| 0 <= u < toks.len() implies !starts_with(s@, #[trigger] toks[u]) by {
            assert(toks[u].len() >= 1);
        }
    }
    None
}

/// The longest token of a text is one that the text begins with, and the text
/// begins with no longer one.
pub proof fn lemma_longest_means(tokens: Seq<Seq<u8>>, s: Seq<u8>, t: int)
    ensures
        is_longest(tokens, s, t) <==> {
            &&& 0 <= t < tokens.len()
            &&& starts_with(s, tokens[t])
            &&& forall|u: int|
                0 <= u < tokens.len() && tokens[t].len() < (#[trigger] tokens[u]).len()
                    ==> !starts_with(s, tokens[u])
        },
        no_token(tokens, s) <==> forall|u: int|
            0 <= u < tokens.len() ==> !starts_with(s, #[trigger] tokens[u]),
{
}

/// The range of a prefix runs from the first token that begins with it to the
/// last, and a range without ids means that no token does.
pub proof fn lemma_prefix_range_means(
    range: TokenRange,
    tokens: Seq<Seq<u8>>,
    prefix: Seq<u8>,
    t: int,
)
    requires
        is_prefix_range(range, tokens, prefix),
    ensures
        range.begin <= t <= range.last <==> 0 <= t < tokens.len() && starts_with(tokens[t], prefix),
        range.begin > range.last ==> 0 <= t < tokens.len() ==> !starts_with(tokens[t], prefix),
{
    assert(range.has(t) <==> 0 <= t < tokens.len() && starts_with(tokens[t], prefix));
}

} // verus!
