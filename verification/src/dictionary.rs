//! The token dictionary and what a code sequence decodes to.

use crate::text::contains;
use crate::types::{Token, MAX_TOKENS};
use vstd::prelude::*;

verus! {

/// The tokens that a payload and its offsets describe.
pub open spec fn tokens_of(bytes: Seq<u8>, offsets: Seq<u32>) -> Seq<Seq<u8>> {
    Seq::new(
        if offsets.len() == 0 {
            0
        } else {
            (offsets.len() - 1) as nat
        },
        |i: int| bytes.subrange(offsets[i] as int, offsets[i + 1] as int),
    )
}

/// The offsets cut the payload into non-empty tokens that ids can name.
pub open spec fn dict_ok(bytes: Seq<u8>, offsets: Seq<u32>) -> bool {
    &&& offsets.len() <= MAX_TOKENS + 1
    &&& forall|i: int, j: int|
        0 <= i < j < offsets.len() ==> #[trigger] offsets[i] < #[trigger] offsets[j]
    &&& offsets.len() > 0 ==> offsets[offsets.len() - 1] <= bytes.len()
}

/// Every code names a token.
pub open spec fn codes_ok(codes: Seq<Token>, ntokens: nat) -> bool {
    forall|i: int| 0 <= i < codes.len() ==> #[trigger] codes[i] < ntokens
}

/// The bytes that a code sequence stands for.
pub open spec fn decode(tokens: Seq<Seq<u8>>, codes: Seq<Token>) -> Seq<u8>
    decreases codes.len(),
{
    if codes.len() == 0 {
        Seq::empty()
    } else {
        decode(tokens, codes.drop_last()) + tokens[codes.last() as int]
    }
}

/// The rows whose decoded bytes contain `pattern`.
pub open spec fn row_contains(
    tokens: Seq<Seq<u8>>,
    codes: Seq<Token>,
    bounds: Seq<int>,
    pattern: Seq<u8>,
) -> spec_fn(int) -> bool {
    |r: int| contains(decode(tokens, crate::rows::row_codes(codes, bounds, r)), pattern)
}

/// Decoding distributes over concatenation.
pub proof fn lemma_decode_concat(tokens: Seq<Seq<u8>>, a: Seq<Token>, b: Seq<Token>)
    ensures
        decode(tokens, a + b) == decode(tokens, a) + decode(tokens, b),
    decreases b.len(),
{
    if b.len() == 0 {
        assert(a + b =~= a);
        assert(decode(tokens, a) + decode(tokens, b) =~= decode(tokens, a));
    } else {
        assert((a + b).drop_last() =~= a + b.drop_last());
        lemma_decode_concat(tokens, a, b.drop_last());
        assert(decode(tokens, a) + decode(tokens, b.drop_last()) + tokens[b.last() as int]
            =~= decode(tokens, a) + (decode(tokens, b.drop_last()) + tokens[b.last() as int]));
    }
}

/// A single code decodes to its token.
pub proof fn lemma_decode_one(tokens: Seq<Seq<u8>>, c: Token)
    ensures
        decode(tokens, seq![c]) == tokens[c as int],
{
    assert(seq![c].drop_last() =~= Seq::<Token>::empty());
    assert(decode(tokens, Seq::<Token>::empty()) =~= Seq::<u8>::empty());
    assert(decode(tokens, seq![c]) =~= tokens[c as int]);
}

/// Decoding one code more appends its token.
pub proof fn lemma_decode_take(tokens: Seq<Seq<u8>>, codes: Seq<Token>, i: int)
    requires
        0 <= i < codes.len(),
    ensures
        decode(tokens, codes.take(i + 1)) == decode(tokens, codes.take(i))
            + tokens[codes[i] as int],
{
    assert(codes.take(i + 1).drop_last() =~= codes.take(i));
    assert(codes.take(i + 1).last() == codes[i]);
}

/// Where the `k`-th code's token begins in the decoded bytes.
pub open spec fn start(tokens: Seq<Seq<u8>>, codes: Seq<Token>, k: int) -> int {
    decode(tokens, codes.take(k)).len() as int
}

/// Tokens follow each other in the decoded bytes.
pub proof fn lemma_start(tokens: Seq<Seq<u8>>, codes: Seq<Token>, k: int)
    requires
        0 <= k < codes.len(),
    ensures
        start(tokens, codes, 0) == 0,
        start(tokens, codes, k + 1) == start(tokens, codes, k) + tokens[codes[k] as int].len(),
        start(tokens, codes, codes.len() as int) == decode(tokens, codes).len(),
        start(tokens, codes, k + 1) <= decode(tokens, codes).len(),
        decode(tokens, codes).subrange(
            start(tokens, codes, k),
            start(tokens, codes, k + 1),
        ) == tokens[codes[k] as int],
        forall|j: int|
            0 <= j < tokens[codes[k] as int].len() ==> decode(tokens, codes)[start(
                tokens,
                codes,
                k,
            ) + j] == #[trigger] tokens[codes[k] as int][j],
{
    assert(codes.take(0) =~= Seq::<Token>::empty());
    assert(codes.take(codes.len() as int) =~= codes);
    lemma_decode_take(tokens, codes, k);
    let rest = codes.skip(k + 1);
    assert(codes.take(k + 1) + rest =~= codes);
    lemma_decode_concat(tokens, codes.take(k + 1), rest);
    let whole = decode(tokens, codes);
    let token = tokens[codes[k] as int];
    let a = start(tokens, codes, k);
    assert forall|j: int| 0 <= j < token.len() implies whole[a + j] == #[trigger] token[j] by {
        assert(decode(tokens, codes.take(k + 1))[a + j] == token[j]);
    }
    assert(whole.subrange(a, a + token.len()) =~= token);
}

/// The code whose token covers byte `x` of the decoded bytes.
pub proof fn locate(tokens: Seq<Seq<u8>>, codes: Seq<Token>, x: int) -> (k: int)
    requires
        0 <= x < decode(tokens, codes).len(),
    ensures
        0 <= k < codes.len(),
        start(tokens, codes, k) <= x < start(tokens, codes, k + 1),
    decreases codes.len(),
{
    let n = codes.len() - 1;
    lemma_start(tokens, codes, n);
    assert(codes.drop_last() =~= codes.take(n));
    if x >= start(tokens, codes, n) {
        n
    } else {
        let front = codes.take(n);
        let k = locate(tokens, front, x);
        assert(front.take(k) =~= codes.take(k));
        assert(front.take(k + 1) =~= codes.take(k + 1));
        k
    }
}

/// A token of a raw dictionary.
pub fn token_at<'a>(bytes: &'a [u8], offsets: &[u32], c: usize) -> (t: &'a [u8])
    requires
        dict_ok(bytes@, offsets@),
        c + 1 < offsets@.len(),
    ensures
        t@ == tokens_of(bytes@, offsets@)[c as int],
        t@.len() > 0,
{
    let count: usize = offsets.len();
    assert(c + 1 < count);
    proof {
        let o = offsets@;
        assert(o[c as int] < o[c + 1]);
        if c + 1 < o.len() - 1 {
            assert(o[c + 1] < o[o.len() - 1]);
        }
    }
    &bytes[offsets[c] as usize..offsets[c + 1] as usize]
}

/// The number of tokens of a raw dictionary.
pub fn token_count(offsets: &[u32]) -> (n: usize)
    ensures
        forall|bytes: Seq<u8>| n == #[trigger] tokens_of(bytes, offsets@).len(),
{
    if offsets.len() == 0 {
        0
    } else {
        offsets.len() - 1
    }
}

/// A column's parts, borrowed: the dictionary and the code stream.
#[derive(Copy, Clone)]
pub struct Parts<'a> {
    /// The tokens' bytes, back to back.
    pub dict_bytes: &'a [u8],
    /// Where each token begins, and where the last one ends.
    pub dict_offsets: &'a [u32],
    /// The code stream.
    pub codes: &'a [Token],
}

impl<'a> Parts<'a> {
    /// The tokens of the dictionary.
    pub open spec fn tokens(&self) -> Seq<Seq<u8>> {
        tokens_of(self.dict_bytes@, self.dict_offsets@)
    }

    /// The dictionary is well formed.
    pub open spec fn dictionary_ok(&self) -> bool {
        dict_ok(self.dict_bytes@, self.dict_offsets@)
    }

    /// The dictionary is well formed and every code names one of its tokens.
    pub open spec fn ok(&self) -> bool {
        self.dictionary_ok() && codes_ok(self.codes@, self.tokens().len())
    }

    /// Whether the dictionary is well formed.
    pub fn validate_dictionary(&self) -> (r: bool)
        ensures
            r == self.dictionary_ok(),
    {
        let ghost o = self.dict_offsets@;
        let n: usize = self.dict_offsets.len();
        if n > MAX_TOKENS + 1 {
            return false;
        }
        if n == 0 {
            return true;
        }
        let mut i: usize = 1;
        while i < n
            invariant
                n == o.len(),
                o == self.dict_offsets@,
                1 <= i <= n,
                forall|k: int, l: int| 0 <= k < l < i ==> #[trigger] o[k] < #[trigger] o[l],
            decreases n - i,
        {
            if self.dict_offsets[i - 1] >= self.dict_offsets[i] {
                assert(o[i - 1] >= o[i as int]);
                return false;
            }
            i = i + 1;
        }
        self.dict_offsets[n - 1] as usize <= self.dict_bytes.len()
    }

    /// Whether the dictionary is well formed and every code names a token.
    pub fn validate(&self) -> (r: bool)
        ensures
            r == self.ok(),
    {
        if !self.validate_dictionary() {
            return false;
        }
        let n: usize = token_count(self.dict_offsets);
        let mut i: usize = 0;
        while i < self.codes.len()
            invariant
                i <= self.codes@.len(),
                n == self.tokens().len(),
                forall|k: int| 0 <= k < i ==> #[trigger] self.codes@[k] < n,
            decreases self.codes@.len() - i,
        {
            if self.codes[i] as usize >= n {
                return false;
            }
            i = i + 1;
        }
        true
    }
}

/// A borrowed dictionary.
#[derive(Copy, Clone)]
pub struct DictView<'a> {
    bytes: &'a [u8],
    offsets: &'a [u32],
}

impl<'a> DictView<'a> {
    /// The tokens of the dictionary.
    pub closed spec fn tokens(&self) -> Seq<Seq<u8>> {
        tokens_of(self.bytes@, self.offsets@)
    }

    /// The payload that holds the tokens, and where each begins.
    pub closed spec fn payload(&self) -> (Seq<u8>, Seq<u32>) {
        (self.bytes@, self.offsets@)
    }

    /// The dictionary is well formed.
    pub closed spec fn wf(&self) -> bool {
        dict_ok(self.bytes@, self.offsets@)
    }

    /// The dictionary of a payload and its offsets.
    pub fn new(bytes: &'a [u8], offsets: &'a [u32]) -> (d: DictView<'a>)
        requires
            dict_ok(bytes@, offsets@),
        ensures
            d.wf(),
            d.tokens() == tokens_of(bytes@, offsets@),
            d.payload() == (bytes@, offsets@),
    {
        DictView { bytes, offsets }
    }

    /// The number of tokens.
    pub fn num_tokens(&self) -> (n: usize)
        requires
            self.wf(),
        ensures
            n == self.tokens().len(),
            n <= MAX_TOKENS,
    {
        let n: usize = token_count(self.offsets);
        assert(n == tokens_of(self.bytes@, self.offsets@).len());
        n
    }

    /// The bytes of a token.
    pub fn token(&self, id: Token) -> (t: &'a [u8])
        requires
            self.wf(),
            id < self.tokens().len(),
        ensures
            t@ == self.tokens()[id as int],
            t@.len() > 0,
    {
        token_at(self.bytes, self.offsets, id as usize)
    }

    /// The length of a token.
    pub fn token_len(&self, id: Token) -> (n: usize)
        requires
            self.wf(),
            id < self.tokens().len(),
        ensures
            n == self.tokens()[id as int].len(),
    {
        self.token(id).len()
    }

    /// The payload that holds the tokens, and where each begins.
    pub fn token_payload(&self) -> (r: (&'a [u8], &'a [u32]))
        requires
            self.wf(),
        ensures
            (r.0@, r.1@) == self.payload(),
            dict_ok(r.0@, r.1@),
            self.tokens() == tokens_of(r.0@, r.1@),
    {
        (self.bytes, self.offsets)
    }
}

/// A dictionary has one token between each two offsets: the bytes between them.
pub proof fn lemma_tokens_lie_between_offsets(bytes: Seq<u8>, offsets: Seq<u32>)
    ensures
        tokens_of(bytes, offsets).len() == (if offsets.len() == 0 {
            0
        } else {
            offsets.len() - 1
        }),
        forall|i: int|
            0 <= i < offsets.len() - 1 ==> #[trigger] tokens_of(bytes, offsets)[i]
                == bytes.subrange(offsets[i] as int, offsets[i + 1] as int),
{
}

/// A dictionary is well formed just when its offsets ascend, step by step, to
/// the payload's end at most, and there are no more tokens than 16 bits name.
pub proof fn lemma_dictionary_ascends(bytes: Seq<u8>, offsets: Seq<u32>)
    ensures
        dict_ok(bytes, offsets) <==> {
            &&& offsets.len() <= 65537
            &&& forall|i: int| 0 < i < offsets.len() ==> offsets[i - 1] < #[trigger] offsets[i]
            &&& offsets.len() > 0 ==> offsets[offsets.len() - 1] <= bytes.len()
        },
{
    if forall|i: int| 0 < i < offsets.len() ==> offsets[i - 1] < #[trigger] offsets[i] {
        assert forall|i: int, j: int| 0 <= i < j < offsets.len() implies #[trigger] offsets[i]
            < #[trigger] offsets[j] by {
            lemma_offsets_ascend(offsets, i, j);
        }
    }
}

proof fn lemma_offsets_ascend(offsets: Seq<u32>, i: int, j: int)
    requires
        forall|k: int| 0 < k < offsets.len() ==> offsets[k - 1] < #[trigger] offsets[k],
        0 <= i < j < offsets.len(),
    ensures
        offsets[i] < offsets[j],
    decreases j - i,
{
    assert(offsets[j - 1] < offsets[j]);
    if i < j - 1 {
        lemma_offsets_ascend(offsets, i, j - 1);
    }
}

/// Codes decode to their tokens, one after the other.
pub proof fn lemma_decode_flattens(tokens: Seq<Seq<u8>>, codes: Seq<Token>)
    ensures
        decode(tokens, codes) == codes.map_values(|c: Token| tokens[c as int]).flatten(),
    decreases codes.len(),
{
    let f = |c: Token| tokens[c as int];
    let parts = codes.map_values(f);
    parts.lemma_flatten_and_flatten_alt_are_equivalent();
    if codes.len() > 0 {
        let rest = codes.drop_last();
        lemma_decode_flattens(tokens, rest);
        rest.map_values(f).lemma_flatten_and_flatten_alt_are_equivalent();
        assert(parts.drop_last() =~= rest.map_values(f));
        assert(parts.last() == tokens[codes.last() as int]);
    }
}

/// A row contains a pattern just when the tokens of its codes, one after the
/// other, are some bytes, the pattern, and some bytes.
pub proof fn lemma_row_contains_splits(
    tokens: Seq<Seq<u8>>,
    codes: Seq<Token>,
    b: Seq<int>,
    pattern: Seq<u8>,
    r: int,
)
    ensures
        row_contains(tokens, codes, b, pattern)(r) <==> exists|x: Seq<u8>, y: Seq<u8>|
            codes.subrange(b[r], b[r + 1]).map_values(|c: Token| tokens[c as int]).flatten()
                == #[trigger] (x + pattern + y),
{
    let row = codes.subrange(b[r], b[r + 1]);
    lemma_decode_flattens(tokens, row);
    crate::text::lemma_contains_splits(decode(tokens, row), pattern);
}

/// Codes are in order just when each is below the number of tokens.
pub proof fn lemma_codes_name_tokens(codes: Seq<Token>, ntokens: nat)
    ensures
        codes_ok(codes, ntokens) <==> forall|i: int|
            0 <= i < codes.len() ==> #[trigger] codes[i] < ntokens,
{
}

} // verus!
