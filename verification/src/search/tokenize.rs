//! Greedy longest-match tokenization.

use crate::dictionary::{codes_ok, decode, lemma_decode_concat, lemma_decode_one, DictView};
use crate::order::{complete, conformant, has_byte, lemma_sorted_unique, sized, sorted};
use crate::search::lookup::{is_longest, longest_token, no_token};
use crate::text::starts_with;
use crate::types::Token;
use vstd::prelude::*;

verus! {

/// Every code names the longest token that the bytes from its token on begin
/// with.
pub open spec fn is_greedy(tokens: Seq<Seq<u8>>, codes: Seq<Token>) -> bool {
    forall|i: int|
        0 <= i < codes.len() ==> is_longest(
            tokens,
            decode(tokens, #[trigger] codes.skip(i)),
            codes[i] as int,
        )
}

/// The greedy codes of `bytes`.
pub open spec fn tokenizes(tokens: Seq<Seq<u8>>, codes: Seq<Token>, bytes: Seq<u8>) -> bool {
    is_greedy(tokens, codes) && decode(tokens, codes) == bytes
}

/// A complete dictionary has a token for the start of any bytes.
pub proof fn lemma_some_token(tokens: Seq<Seq<u8>>, s: Seq<u8>)
    requires
        complete(tokens),
        s.len() > 0,
    ensures
        !no_token(tokens, s),
{
    assert(has_byte(tokens, s[0]));
    let i = choose|i: int| 0 <= i < tokens.len() && #[trigger] tokens[i] =~= seq![s[0]];
    assert(starts_with(s, tokens[i])) by {
        assert(s.take(1) =~= tokens[i]);
    }
}

/// Greedy codes are those of one byte string alone, and it has no others.
pub proof fn lemma_greedy_unique(tokens: Seq<Seq<u8>>, a: Seq<Token>, b: Seq<Token>)
    requires
        sorted(tokens),
        sized(tokens),
        is_greedy(tokens, a),
        is_greedy(tokens, b),
        decode(tokens, a) == decode(tokens, b),
    ensures
        a == b,
    decreases a.len(),
{
    lemma_first(tokens, a);
    lemma_first(tokens, b);
    if a.len() == 0 || b.len() == 0 {
        assert(a =~= b);
    } else {
        assert(a.skip(0) =~= a);
        assert(b.skip(0) =~= b);
        let ta = tokens[a[0] as int];
        let tb = tokens[b[0] as int];
        let text = decode(tokens, a);
        assert(is_longest(tokens, text, a[0] as int));
        assert(is_longest(tokens, text, b[0] as int));
        assert(ta =~= tb) by {
            assert(text.take(ta.len() as int) =~= ta);
            assert(text.take(tb.len() as int) =~= tb);
        }
        lemma_sorted_unique(tokens, a[0] as int, b[0] as int);
        let ra = a.skip(1);
        let rb = b.skip(1);
        assert(decode(tokens, ra) =~= text.skip(ta.len() as int));
        assert(decode(tokens, rb) =~= text.skip(tb.len() as int));
        lemma_greedy_skip(tokens, a, 1);
        lemma_greedy_skip(tokens, b, 1);
        lemma_greedy_unique(tokens, ra, rb);
        assert(a =~= seq![a[0]] + ra);
        assert(b =~= seq![b[0]] + rb);
    }
}

/// The rest of greedy codes is greedy.
pub proof fn lemma_greedy_skip(tokens: Seq<Seq<u8>>, codes: Seq<Token>, k: int)
    requires
        is_greedy(tokens, codes),
        0 <= k <= codes.len(),
    ensures
        is_greedy(tokens, codes.skip(k)),
{
    let rest = codes.skip(k);
    assert forall|i: int| 0 <= i < rest.len() implies is_longest(
        tokens,
        decode(tokens, #[trigger] rest.skip(i)),
        rest[i] as int,
    ) by {
        assert(rest.skip(i) =~= codes.skip(k + i));
        assert(rest[i] == codes[k + i]);
    }
}

/// The bytes of codes begin with the first one's token.
pub proof fn lemma_first(tokens: Seq<Seq<u8>>, codes: Seq<Token>)
    requires
        sized(tokens),
        is_greedy(tokens, codes),
    ensures
        codes_ok(codes, tokens.len()),
        codes.len() == 0 <==> decode(tokens, codes).len() == 0,
        codes.len() > 0 ==> decode(tokens, codes) == tokens[codes[0] as int] + decode(
            tokens,
            codes.skip(1),
        ),
{
    assert forall|i: int| 0 <= i < codes.len() implies #[trigger] codes[i] < tokens.len() by {
        assert(is_longest(tokens, decode(tokens, codes.skip(i)), codes[i] as int));
    }
    if codes.len() > 0 {
        assert(codes =~= seq![codes[0]] + codes.skip(1));
        lemma_decode_concat(tokens, seq![codes[0]], codes.skip(1));
        lemma_decode_one(tokens, codes[0]);
        assert(tokens[codes[0] as int].len() >= 1);
    }
}

/// Tokenizes `bytes` greedily.
pub fn tokenize(bytes: &[u8], dict: DictView<'_>) -> (codes: Vec<Token>)
    requires
        dict.wf(),
        conformant(dict.tokens()),
    ensures
        tokenizes(dict.tokens(), codes@, bytes@),
        codes_ok(codes@, dict.tokens().len()),
{
    let ghost toks = dict.tokens();
    let mut codes: Vec<Token> = Vec::new();
    let mut at: usize = 0;
    let ghost text = bytes@;
    proof {
        assert(text.take(0) =~= decode(toks, codes@));
    }
    while at < bytes.len()
        invariant
            dict.wf(),
            toks == dict.tokens(),
            conformant(toks),
            text == bytes@,
            at <= text.len(),
            decode(toks, codes@) == text.take(at as int),
            codes_ok(codes@, toks.len()),
            forall|i: int|
                0 <= i < codes@.len() ==> is_longest(
                    toks,
                    decode(toks, #[trigger] codes@.skip(i)) + text.skip(at as int),
                    codes@[i] as int,
                ),
        decreases text.len() - at,
    {
        let rest = &bytes[at..bytes.len()];
        assert(rest@ =~= text.skip(at as int));
        let found = longest_token(dict, rest);
        proof {
            lemma_some_token(toks, rest@);
        }
        match found {
            Some((t, len)) => {
                let ghost before = codes@;
                codes.push(t);
                proof {
                    let token = toks[t as int];
                    assert(text.skip(at as int).take(len as int) =~= token);
                    assert(codes@.drop_last() =~= before);
                    assert(text.take(at + len) =~= text.take(at as int) + token);
                    assert(decode(toks, codes@) =~= text.take(at + len));
                    assert(token + text.skip(at + len) =~= text.skip(at as int));
                    assert forall|i: int| 0 <= i < codes@.len() implies is_longest(
                        toks,
                        decode(toks, #[trigger] codes@.skip(i)) + text.skip(at + len),
                        codes@[i] as int,
                    ) by {
                        if i < before.len() {
                            assert(codes@.skip(i) =~= before.skip(i) + seq![t]);
                            lemma_decode_concat(toks, before.skip(i), seq![t]);
                            lemma_decode_one(toks, t);
                            assert(decode(toks, before.skip(i)) + token + text.skip(at + len)
                                =~= decode(toks, before.skip(i)) + text.skip(at as int));
                        } else {
                            assert(codes@.skip(i) =~= seq![t]);
                            lemma_decode_one(toks, t);
                        }
                    }
                    assert(codes_ok(codes@, toks.len())) by {
                        assert forall|i: int| 0 <= i < codes@.len() implies #[trigger] codes@[i]
                            < toks.len() by {
                            if i < before.len() {
                                assert(before[i] < toks.len());
                            }
                        }
                    }
                }
                at = at + len;
            },
            None => {
                assert(false);
                at = bytes.len();
            },
        }
    }
    proof {
        assert(text.take(at as int) =~= text);
        assert forall|i: int| 0 <= i < codes@.len() implies is_longest(
            toks,
            decode(toks, #[trigger] codes@.skip(i)),
            codes@[i] as int,
        ) by {
            assert(decode(toks, codes@.skip(i)) + text.skip(at as int) =~= decode(
                toks,
                codes@.skip(i),
            ));
        }
    }
    codes
}

/// Greedy codes take, at every place, a token that what is left begins with,
/// and the longest such.
pub proof fn lemma_greedy_means(tokens: Seq<Seq<u8>>, codes: Seq<Token>, i: int, u: int)
    requires
        is_greedy(tokens, codes),
        0 <= i < codes.len(),
        0 <= u < tokens.len(),
    ensures
        codes[i] < tokens.len(),
        starts_with(decode(tokens, codes.skip(i)), tokens[codes[i] as int]),
        tokens[u].len() > tokens[codes[i] as int].len() ==> !starts_with(
            decode(tokens, codes.skip(i)),
            tokens[u],
        ),
{
    assert(is_longest(tokens, decode(tokens, codes.skip(i)), codes[i] as int));
}

/// The codes of some bytes are greedy and decode back to them.
pub proof fn lemma_tokenization_means(tokens: Seq<Seq<u8>>, codes: Seq<Token>, bytes: Seq<u8>)
    ensures
        tokenizes(tokens, codes, bytes) <==> is_greedy(tokens, codes) && decode(tokens, codes)
            == bytes,
{
}

} // verus!
