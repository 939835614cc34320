//! A prefix-sum index of token frequencies over a code stream.

use crate::query::stats::occurrences;
use crate::types::{Token, TokenRange, MAX_TOKENS};
use crate::validate::{InvalidColumn, InvalidFrequencyIndex};
use crate::count::{lemma_count_finite, lemma_count_next, lemma_count_none};
use crate::query::stats::lemma_occurrences_counted;
use vstd::prelude::*;
use vstd::set_lib::set_int_range;

verus! {

/// A code of any width that fits the token domain.
pub trait Code: Copy {
    /// The token id that the code names.
    spec fn id(self) -> Token;

    /// The token id that the code names.
    fn token(self) -> (t: Token)
        ensures
            t == self.id(),
    ;
}

impl Code for u8 {
    open spec fn id(self) -> Token {
        self as Token
    }

    fn token(self) -> (t: Token) {
        self as Token
    }
}

impl Code for Token {
    open spec fn id(self) -> Token {
        self
    }

    fn token(self) -> (t: Token) {
        self
    }
}

/// The token ids that codes name.
pub open spec fn ids<C: Code>(codes: Seq<C>) -> Seq<Token> {
    Seq::new(codes.len(), |i: int| codes[i].id())
}

/// Storage for a token-frequency index's prefix sums.
///
/// The returned slice must stay the same while the storage is alive.
pub trait TokenFrequencyIndexStorage {
    /// The prefix sums that the storage holds.
    spec fn sums(&self) -> Seq<u32>;

    /// The prefix sums of token occurrences.
    fn cumulative(&self) -> (r: &[u32])
        ensures
            r@ == self.sums(),
    ;
}

/// The default owned storage used by [`TokenFrequencyIndex`].
#[derive(Debug, Clone, PartialEq, Eq)]
pub struct OwnedTokenFrequencyIndexStorage {
    cumulative: Vec<u32>,
}

impl OwnedTokenFrequencyIndexStorage {
    /// Owned storage of a serialized buffer.
    pub fn new(cumulative: Vec<u32>) -> (r: OwnedTokenFrequencyIndexStorage)
        ensures
            r.sums() == cumulative@,
    {
        OwnedTokenFrequencyIndexStorage { cumulative }
    }

    /// The serialized buffer, without copying.
    pub fn into_raw(self) -> (r: Vec<u32>)
        ensures
            r@ == self.sums(),
    {
        self.cumulative
    }
}

impl TokenFrequencyIndexStorage for OwnedTokenFrequencyIndexStorage {
    closed spec fn sums(&self) -> Seq<u32> {
        self.cumulative@
    }

    fn cumulative(&self) -> (r: &[u32]) {
        self.cumulative.as_slice()
    }
}

/// A buffer that its owner keeps, such as part of a loaded file.
#[derive(Debug, Clone, Copy)]
pub struct BorrowedTokenFrequencyIndexStorage<'a>(pub &'a [u32]);

impl<'a> TokenFrequencyIndexStorage for BorrowedTokenFrequencyIndexStorage<'a> {
    open spec fn sums(&self) -> Seq<u32> {
        self.0@
    }

    fn cumulative(&self) -> (r: &[u32]) {
        self.0
    }
}

/// Some prefix sum exceeds its successor.
pub open spec fn decreases_somewhere(sums: Seq<u32>) -> bool {
    exists|i: int| 0 <= i < sums.len() - 1 && sums[i] > #[trigger] sums[i + 1]
}

/// The first fault in the layout of prefix sums over `num_tokens` tokens and
/// `total` codes, if any.
pub open spec fn layout_fault(sums: Seq<u32>, num_tokens: int, total: int) -> Option<
    InvalidColumn,
> {
    if num_tokens > MAX_TOKENS {
        Some(InvalidColumn::CodeOutOfRange)
    } else if sums.len() != num_tokens + 1 {
        Some(InvalidColumn::FrequencyIndex(InvalidFrequencyIndex::BadLength))
    } else if sums[0] != 0 {
        Some(InvalidColumn::FrequencyIndex(InvalidFrequencyIndex::FirstCumulativeNotZero))
    } else if decreases_somewhere(sums) {
        Some(InvalidColumn::FrequencyIndex(InvalidFrequencyIndex::DecreasingCumulative))
    } else if total > u32::MAX {
        Some(InvalidColumn::FrequencyIndex(InvalidFrequencyIndex::FrequencyOverflow))
    } else if sums[num_tokens] != total {
        Some(InvalidColumn::FrequencyIndex(InvalidFrequencyIndex::InvalidTotal))
    } else {
        None
    }
}

/// Prefix sums begin with 0 and never decrease.
pub open spec fn layout_ok(sums: Seq<u32>) -> bool {
    &&& 1 <= sums.len() <= MAX_TOKENS + 1
    &&& sums[0] == 0
    &&& forall|i: int, j: int| 0 <= i <= j < sums.len() ==> #[trigger] sums[i] <= #[trigger] sums[j]
}

/// A layout without a fault is a layout.
pub proof fn lemma_layout(sums: Seq<u32>, num_tokens: int, total: int)
    requires
        layout_fault(sums, num_tokens, total) is None,
        num_tokens >= 0,
    ensures
        layout_ok(sums),
        sums.len() == num_tokens + 1,
        sums[num_tokens] == total,
{
    assert forall|i: int, j: int| 0 <= i <= j < sums.len() implies #[trigger] sums[i]
        <= #[trigger] sums[j] by {
        lemma_ascending(sums, i, j);
    }
}

proof fn lemma_ascending(sums: Seq<u32>, i: int, j: int)
    requires
        !decreases_somewhere(sums),
        0 <= i <= j < sums.len(),
    ensures
        sums[i] <= sums[j],
    decreases j - i,
{
    if i < j {
        lemma_ascending(sums, i, j - 1);
        assert(sums[j - 1] <= sums[(j - 1) + 1]);
    }
}

/// A code outside the token domain is among the first `k`.
pub open spec fn has_foreign_code(codes: Seq<Token>, num_tokens: int) -> bool {
    exists|i: int| 0 <= i < codes.len() && #[trigger] codes[i] >= num_tokens
}

/// The sums count every token of the stream exactly.
pub open spec fn counts_exactly(sums: Seq<u32>, codes: Seq<Token>) -> bool {
    forall|t: int|
        0 <= t < sums.len() - 1 ==> #[trigger] sums[t + 1] - sums[t] == occurrences(
            codes,
            t,
            codes.len(),
        )
}

/// The first way in which prefix sums fail to count `codes`, if any.
pub open spec fn count_fault(sums: Seq<u32>, codes: Seq<Token>) -> Option<InvalidColumn> {
    if codes.len() != sums[sums.len() - 1] {
        Some(InvalidColumn::FrequencyIndex(InvalidFrequencyIndex::FrequenciesMismatch))
    } else if has_foreign_code(codes, sums.len() - 1) {
        Some(InvalidColumn::CodeOutOfRange)
    } else if !counts_exactly(sums, codes) {
        Some(InvalidColumn::FrequencyIndex(InvalidFrequencyIndex::FrequenciesMismatch))
    } else {
        None
    }
}

/// `Ok` where there is no fault, else the fault.
pub open spec fn verdict(fault: Option<InvalidColumn>) -> Result<(), InvalidColumn> {
    match fault {
        None => Ok(()),
        Some(e) => Err(e),
    }
}

fn validate_cumulative_safety(cumulative: &[u32], num_tokens: usize, total_codes: usize) -> (r: Result<
    (),
    InvalidColumn,
>)
    ensures
        r == verdict(layout_fault(cumulative@, num_tokens as int, total_codes as int)),
{
    let ghost s = cumulative@;
    if num_tokens > MAX_TOKENS {
        return Err(InvalidColumn::CodeOutOfRange);
    }
    if cumulative.len() != num_tokens + 1 {
        return Err(InvalidColumn::FrequencyIndex(InvalidFrequencyIndex::BadLength));
    }
    if cumulative[0] != 0 {
        return Err(InvalidColumn::FrequencyIndex(InvalidFrequencyIndex::FirstCumulativeNotZero));
    }
    let mut i: usize = 0;
    while i < num_tokens
        invariant
            i <= num_tokens,
            num_tokens <= MAX_TOKENS,
            s == cumulative@,
            s.len() == num_tokens + 1,
            s[0] == 0,
            forall|k: int| 0 <= k < i ==> s[k] <= #[trigger] s[k + 1],
        decreases num_tokens - i,
    {
        if cumulative[i] > cumulative[i + 1] {
            assert(s[i as int] > s[i + 1]);
            return Err(
                InvalidColumn::FrequencyIndex(InvalidFrequencyIndex::DecreasingCumulative),
            );
        }
        i = i + 1;
    }
    assert(!decreases_somewhere(s));
    if total_codes as u64 > u32::MAX as u64 {
        return Err(InvalidColumn::FrequencyIndex(InvalidFrequencyIndex::FrequencyOverflow));
    }
    if cumulative[num_tokens] as u64 != total_codes as u64 {
        return Err(InvalidColumn::FrequencyIndex(InvalidFrequencyIndex::InvalidTotal));
    }
    Ok(())
}

fn validate_frequency_correctness(cumulative: &[u32], codes: &[Token]) -> (r: Result<
    (),
    InvalidColumn,
>)
    requires
        layout_ok(cumulative@),
    ensures
        r == verdict(count_fault(cumulative@, codes@)),
{
    let ghost s = cumulative@;
    let num_tokens: usize = cumulative.len() - 1;
    if codes.len() as u64 != cumulative[num_tokens] as u64 {
        return Err(InvalidColumn::FrequencyIndex(InvalidFrequencyIndex::FrequenciesMismatch));
    }
    let mut counts: Vec<u32> = vec![0u32; num_tokens];
    let mut i: usize = 0;
    while i < codes.len()
        invariant
            i <= codes@.len(),
            codes@.len() <= u32::MAX,
            s == cumulative@,
            num_tokens == s.len() - 1,
            codes@.len() == s[s.len() - 1],
            counts@.len() == num_tokens,
            forall|k: int| 0 <= k < i ==> #[trigger] codes@[k] < num_tokens,
            forall|t: int|
                0 <= t < num_tokens ==> #[trigger] counts@[t] == occurrences(codes@, t, i as nat)
                    && counts@[t] <= i,
        decreases codes@.len() - i,
    {
        let code: usize = codes[i] as usize;
        if code >= num_tokens {
            assert(codes@[i as int] >= num_tokens);
            return Err(InvalidColumn::CodeOutOfRange);
        }
        let count: u32 = counts[code];
        counts.set(code, count + 1);
        i = i + 1;
    }
    assert(!has_foreign_code(codes@, num_tokens as int));
    let mut t: usize = 0;
    while t < num_tokens
        invariant
            t <= num_tokens,
            s == cumulative@,
            layout_ok(s),
            num_tokens == s.len() - 1,
            codes@.len() == s[s.len() - 1],
            !has_foreign_code(codes@, num_tokens as int),
            counts@.len() == num_tokens,
            forall|k: int|
                0 <= k < num_tokens ==> #[trigger] counts@[k] == occurrences(
                    codes@,
                    k,
                    codes@.len(),
                ),
            forall|k: int|
                0 <= k < t ==> #[trigger] s[k + 1] - s[k] == occurrences(codes@, k, codes@.len()),
        decreases num_tokens - t,
    {
        assert(s[t as int] <= s[t + 1]);
        if counts[t] != cumulative[t + 1] - cumulative[t] {
            assert(s[t + 1] - s[t as int] != occurrences(codes@, t as int, codes@.len()));
            return Err(InvalidColumn::FrequencyIndex(InvalidFrequencyIndex::FrequenciesMismatch));
        }
        t = t + 1;
    }
    Ok(())
}

/// Prefix-sum index of token frequencies in a code stream: entry `i` is the
/// number of codes whose token id is less than `i`.
///
/// [`validate_safety`](Self::validate_safety) checks the layout;
/// [`validate`](Self::validate) also proves exact correspondence with a code
/// stream. Indexes that were built are exact.
#[derive(Debug, Clone, PartialEq, Eq)]
pub struct TokenFrequencyIndex<S = OwnedTokenFrequencyIndexStorage> {
    storage: S,
}

impl<S: TokenFrequencyIndexStorage> TokenFrequencyIndex<S> {
    /// The prefix sums.
    pub closed spec fn sums(&self) -> Seq<u32> {
        self.storage.sums()
    }

    /// The storage behind the index.
    pub closed spec fn backing(&self) -> S {
        self.storage
    }

    /// The index has a layout.
    pub open spec fn wf(&self) -> bool {
        layout_ok(self.sums())
    }

    /// Validates the layout for `num_tokens` and `total_codes`, retaining
    /// `storage` without copying.
    pub fn validate_safety(storage: S, num_tokens: usize, total_codes: usize) -> (r: Result<
        TokenFrequencyIndex<S>,
        InvalidColumn,
    >)
        ensures
            match layout_fault(storage.sums(), num_tokens as int, total_codes as int) {
                Some(e) => r == Err::<TokenFrequencyIndex<S>, InvalidColumn>(e),
                None => r is Ok && r->Ok_0.wf() && r->Ok_0.backing() == storage && r->Ok_0.sums()
                    == storage.sums(),
            },
    {
        match validate_cumulative_safety(storage.cumulative(), num_tokens, total_codes) {
            Err(e) => Err(e),
            Ok(_) => {
                proof {
                    lemma_layout(storage.sums(), num_tokens as int, total_codes as int);
                }
                Ok(TokenFrequencyIndex { storage })
            },
        }
    }

    /// Validates the layout and its exact correspondence with `codes`.
    pub fn validate(storage: S, codes: &[Token], num_tokens: usize) -> (r: Result<
        TokenFrequencyIndex<S>,
        InvalidColumn,
    >)
        ensures
            match layout_fault(storage.sums(), num_tokens as int, codes@.len() as int) {
                Some(e) => r == Err::<TokenFrequencyIndex<S>, InvalidColumn>(e),
                None => match count_fault(storage.sums(), codes@) {
                    Some(e) => r == Err::<TokenFrequencyIndex<S>, InvalidColumn>(e),
                    None => r is Ok && r->Ok_0.wf() && r->Ok_0.backing() == storage
                        && r->Ok_0.sums() == storage.sums(),
                },
            },
    {
        match Self::validate_safety(storage, num_tokens, codes.len()) {
            Err(e) => Err(e),
            Ok(index) => match index.check_correctness(codes) {
                Err(e) => Err(e),
                Ok(_) => Ok(index),
            },
        }
    }

    /// Checks that the index counts `codes` exactly.
    pub fn check_correctness(&self, codes: &[Token]) -> (r: Result<(), InvalidColumn>)
        requires
            self.wf(),
        ensures
            r == verdict(count_fault(self.sums(), codes@)),
    {
        validate_frequency_correctness(self.storage.cumulative(), codes)
    }

    /// The storage backing this index.
    pub fn storage(&self) -> (r: &S)
        ensures
            *r == self.backing(),
            r.sums() == self.sums(),
    {
        &self.storage
    }

    /// The backing storage, without copying.
    pub fn into_storage(self) -> (r: S)
        ensures
            r == self.backing(),
            r.sums() == self.sums(),
    {
        self.storage
    }

    /// A storage-independent view of the index.
    pub fn as_view(&self) -> (r: TokenFrequencyIndexView<'_>)
        requires
            self.wf(),
        ensures
            r.wf(),
            r.sums() == self.sums(),
    {
        TokenFrequencyIndexView { cumulative: self.storage.cumulative() }
    }

    /// The number of token ids that the index covers.
    pub fn num_tokens(&self) -> (n: usize)
        requires
            self.wf(),
        ensures
            n == self.sums().len() - 1,
    {
        self.as_view().num_tokens()
    }

    /// The frequency of `token` in the indexed code stream.
    pub fn frequency(&self, token: Token) -> (n: u32)
        requires
            self.wf(),
            token < self.sums().len() - 1,
        ensures
            n == self.sums()[token + 1] - self.sums()[token as int],
    {
        self.as_view().frequency(token)
    }

    /// The summed frequency of an inclusive range of token ids.
    pub fn range_frequency(&self, range: TokenRange) -> (n: u32)
        requires
            self.wf(),
            !range.nothing() ==> range.last < self.sums().len() - 1,
        ensures
            n == range_sum(self.sums(), range),
    {
        self.as_view().range_frequency(range)
    }

    /// The number of codes that the index represents.
    pub fn total_frequency(&self) -> (n: u32)
        requires
            self.wf(),
        ensures
            n == self.sums()[self.sums().len() - 1],
    {
        self.as_view().total_frequency()
    }
}

/// What prefix sums count over a range of token ids.
pub open spec fn range_sum(sums: Seq<u32>, range: TokenRange) -> int {
    if range.nothing() {
        0
    } else {
        sums[range.last + 1] - sums[range.begin as int]
    }
}

/// Borrowed view over a token-frequency buffer.
#[derive(Copy, Clone, Debug)]
pub struct TokenFrequencyIndexView<'a> {
    cumulative: &'a [u32],
}

impl<'a> TokenFrequencyIndexView<'a> {
    /// The prefix sums.
    pub closed spec fn sums(&self) -> Seq<u32> {
        self.cumulative@
    }

    /// The view has a layout.
    pub open spec fn wf(&self) -> bool {
        layout_ok(self.sums())
    }

    /// Validates a borrowed buffer's layout without copying it.
    pub fn validate_safety(cumulative: &'a [u32], num_tokens: usize, total_codes: usize) -> (r: Result<
        TokenFrequencyIndexView<'a>,
        InvalidColumn,
    >)
        ensures
            match layout_fault(cumulative@, num_tokens as int, total_codes as int) {
                Some(e) => r == Err::<TokenFrequencyIndexView<'a>, InvalidColumn>(e),
                None => r is Ok && r->Ok_0.wf() && r->Ok_0.sums() == cumulative@,
            },
    {
        match validate_cumulative_safety(cumulative, num_tokens, total_codes) {
            Err(e) => Err(e),
            Ok(_) => {
                proof {
                    lemma_layout(cumulative@, num_tokens as int, total_codes as int);
                }
                Ok(TokenFrequencyIndexView { cumulative })
            },
        }
    }

    /// Validates a borrowed buffer and its exact correspondence with `codes`.
    pub fn validate(cumulative: &'a [u32], codes: &[Token], num_tokens: usize) -> (r: Result<
        TokenFrequencyIndexView<'a>,
        InvalidColumn,
    >)
        ensures
            match layout_fault(cumulative@, num_tokens as int, codes@.len() as int) {
                Some(e) => r == Err::<TokenFrequencyIndexView<'a>, InvalidColumn>(e),
                None => match count_fault(cumulative@, codes@) {
                    Some(e) => r == Err::<TokenFrequencyIndexView<'a>, InvalidColumn>(e),
                    None => r is Ok && r->Ok_0.wf() && r->Ok_0.sums() == cumulative@,
                },
            },
    {
        match Self::validate_safety(cumulative, num_tokens, codes.len()) {
            Err(e) => Err(e),
            Ok(view) => match view.check_correctness(codes) {
                Err(e) => Err(e),
                Ok(_) => Ok(view),
            },
        }
    }

    /// Checks that the view counts `codes` exactly.
    pub fn check_correctness(&self, codes: &[Token]) -> (r: Result<(), InvalidColumn>)
        requires
            self.wf(),
        ensures
            r == verdict(count_fault(self.sums(), codes@)),
    {
        validate_frequency_correctness(self.cumulative, codes)
    }

    /// The buffer behind the view.
    pub fn cumulative(&self) -> (r: &'a [u32])
        ensures
            r@ == self.sums(),
    {
        self.cumulative
    }

    /// The number of token ids that the view covers.
    pub fn num_tokens(&self) -> (n: usize)
        requires
            self.wf(),
        ensures
            n == self.sums().len() - 1,
    {
        self.cumulative.len() - 1
    }

    /// The frequency of `token` in the indexed code stream.
    pub fn frequency(&self, token: Token) -> (n: u32)
        requires
            self.wf(),
            token < self.sums().len() - 1,
        ensures
            n == self.sums()[token + 1] - self.sums()[token as int],
    {
        let t: usize = token as usize;
        assert(self.sums()[t as int] <= self.sums()[t + 1]);
        self.cumulative[t + 1] - self.cumulative[t]
    }

    /// The summed frequency of an inclusive range of token ids; 0 for the
    /// empty range.
    pub fn range_frequency(&self, range: TokenRange) -> (n: u32)
        requires
            self.wf(),
            !range.nothing() ==> range.last < self.sums().len() - 1,
        ensures
            n == range_sum(self.sums(), range),
    {
        if range.is_empty() {
            return 0;
        }
        let begin: usize = range.begin as usize;
        let last: usize = range.last as usize;
        assert(self.sums()[begin as int] <= self.sums()[last + 1]);
        self.cumulative[last + 1] - self.cumulative[begin]
    }

    /// The number of codes that the view represents.
    pub fn total_frequency(&self) -> (n: u32)
        requires
            self.wf(),
        ensures
            n == self.sums()[self.sums().len() - 1],
    {
        self.cumulative[self.cumulative.len() - 1]
    }
}

/// Failure to construct a [`TokenFrequencyIndex`].
#[derive(Debug, Copy, Clone, Eq, PartialEq, Structural)]
pub enum TokenFrequencyIndexError {
    /// The code stream holds more than `u32::MAX` codes.
    FrequencyOverflow,
    /// The token count exceeds the token domain.
    TooManyTokens,
    /// A code is not below the token count.
    CodeOutOfRange,
}

impl TokenFrequencyIndexError {
    /// What went wrong, in words.
    pub fn message(&self) -> (r: &'static str)
        ensures
            r@ == match self {
                TokenFrequencyIndexError::FrequencyOverflow =>
                    "code stream is too large for a u32 frequency index"@,
                TokenFrequencyIndexError::TooManyTokens =>
                    "token count exceeds the Token id domain"@,
                TokenFrequencyIndexError::CodeOutOfRange =>
                    "code index is outside the frequency index token domain"@,
            },
    {
        match self {
            TokenFrequencyIndexError::FrequencyOverflow =>
                "code stream is too large for a u32 frequency index",
            TokenFrequencyIndexError::TooManyTokens => "token count exceeds the Token id domain",
            TokenFrequencyIndexError::CodeOutOfRange =>
                "code index is outside the frequency index token domain",
        }
    }
}

/// The number of codes whose id is below `t`.
pub open spec fn codes_below(codes: Seq<Token>, t: nat) -> nat
    decreases t,
{
    if t == 0 {
        0
    } else {
        codes_below(codes, (t - 1) as nat) + occurrences(codes, t - 1, codes.len())
    }
}

/// The number of the first `k` codes whose id is below `t`.
spec fn below_upto(codes: Seq<Token>, t: int, k: nat) -> nat
    decreases k,
{
    if k == 0 {
        0
    } else {
        below_upto(codes, t, (k - 1) as nat) + (if codes[k - 1] < t {
            1nat
        } else {
            0nat
        })
    }
}

proof fn lemma_below_step(codes: Seq<Token>, t: int, k: nat)
    requires
        t >= 0,
        k <= codes.len(),
    ensures
        below_upto(codes, t + 1, k) == below_upto(codes, t, k) + occurrences(codes, t, k),
        below_upto(codes, 0, k) == 0,
        below_upto(codes, t, k) <= k,
    decreases k,
{
    if k > 0 {
        lemma_below_step(codes, t, (k - 1) as nat);
    }
}

proof fn lemma_codes_below(codes: Seq<Token>, t: nat)
    ensures
        codes_below(codes, t) == below_upto(codes, t as int, codes.len()),
        codes_below(codes, t) <= codes.len(),
    decreases t,
{
    if t > 0 {
        lemma_codes_below(codes, (t - 1) as nat);
        lemma_below_step(codes, t - 1, codes.len());
        lemma_below_step(codes, t as int, codes.len());
    } else {
        lemma_below_step(codes, 0, codes.len());
    }
}

proof fn lemma_all_below(codes: Seq<Token>, n: int, k: nat)
    requires
        k <= codes.len(),
        forall|i: int| 0 <= i < codes.len() ==> #[trigger] codes[i] < n,
    ensures
        below_upto(codes, n, k) == k,
    decreases k,
{
    if k > 0 {
        lemma_all_below(codes, n, (k - 1) as nat);
    }
}

/// Builds the prefix-sum frequency index of `codes` over `num_tokens` token
/// ids.
pub fn build_token_frequency_index<C: Code>(codes: &[C], num_tokens: usize) -> (r: Result<
    TokenFrequencyIndex,
    TokenFrequencyIndexError,
>)
    ensures
        r == Err::<TokenFrequencyIndex, TokenFrequencyIndexError>(
            TokenFrequencyIndexError::FrequencyOverflow,
        ) <==> codes@.len() > u32::MAX,
        r == Err::<TokenFrequencyIndex, TokenFrequencyIndexError>(
            TokenFrequencyIndexError::TooManyTokens,
        ) <==> codes@.len() <= u32::MAX && num_tokens > MAX_TOKENS,
        r == Err::<TokenFrequencyIndex, TokenFrequencyIndexError>(
            TokenFrequencyIndexError::CodeOutOfRange,
        ) <==> codes@.len() <= u32::MAX && num_tokens <= MAX_TOKENS && has_foreign_code(
            ids(codes@),
            num_tokens as int,
        ),
        r matches Ok(index) ==> {
            &&& index.wf()
            &&& index.sums().len() == num_tokens + 1
            &&& forall|t: int|
                0 <= t <= num_tokens ==> #[trigger] index.sums()[t] == codes_below(
                    ids(codes@),
                    t as nat,
                )
            &&& count_fault(index.sums(), ids(codes@)) is None
        },
{
    match checked_frequency_total(codes.len()) {
        Err(e) => {
            return Err(e);
        },
        Ok(_) => {},
    }
    if num_tokens > MAX_TOKENS {
        return Err(TokenFrequencyIndexError::TooManyTokens);
    }
    let ghost cs = ids(codes@);
    let mut cumulative: Vec<u32> = vec![0u32; num_tokens + 1];
    let mut i: usize = 0;
    while i < codes.len()
        invariant
            i <= codes@.len(),
            codes@.len() <= u32::MAX,
            num_tokens <= MAX_TOKENS,
            cs == ids(codes@),
            cumulative@.len() == num_tokens + 1,
            cumulative@[0] == 0,
            forall|k: int| 0 <= k < i ==> #[trigger] cs[k] < num_tokens,
            forall|t: int|
                0 <= t < num_tokens ==> #[trigger] cumulative@[t + 1] == occurrences(
                    cs,
                    t,
                    i as nat,
                ) && cumulative@[t + 1] <= i,
        decreases codes@.len() - i,
    {
        let code: usize = codes[i].token() as usize;
        if code >= num_tokens {
            assert(cs[i as int] >= num_tokens);
            return Err(TokenFrequencyIndexError::CodeOutOfRange);
        }
        assert(cumulative@[code as int + 1] == occurrences(cs, code as int, i as nat));
        let count: u32 = cumulative[code + 1];
        let ghost before = cumulative@;
        cumulative.set(code + 1, count + 1);
        proof {
            assert forall|t: int| 0 <= t < num_tokens implies #[trigger] cumulative@[t + 1]
                == occurrences(cs, t, (i + 1) as nat) && cumulative@[t + 1] <= i + 1 by {
                assert(before[t + 1] == occurrences(cs, t, i as nat));
            }
        }
        i = i + 1;
    }
    assert(!has_foreign_code(cs, num_tokens as int));
    let ghost counts = cumulative@;
    let mut token: usize = 0;
    while token < num_tokens
        invariant
            token <= num_tokens,
            num_tokens <= MAX_TOKENS,
            cs.len() <= u32::MAX,
            counts.len() == num_tokens + 1,
            cumulative@.len() == num_tokens + 1,
            forall|t: int|
                0 <= t < num_tokens ==> #[trigger] counts[t + 1] == occurrences(cs, t, cs.len()),
            forall|t: int|
                0 <= t <= token ==> #[trigger] cumulative@[t] == codes_below(cs, t as nat),
            forall|t: int| token < t <= num_tokens ==> #[trigger] cumulative@[t] == counts[t],
        decreases num_tokens - token,
    {
        proof {
            lemma_codes_below(cs, (token + 1) as nat);
            assert(counts[token + 1] == occurrences(cs, token as int, cs.len()));
        }
        let sum: u32 = cumulative[token + 1] + cumulative[token];
        cumulative.set(token + 1, sum);
        token = token + 1;
    }
    let index = TokenFrequencyIndex { storage: OwnedTokenFrequencyIndexStorage::new(cumulative) };
    proof {
        let s = index.sums();
        assert forall|a: int, b: int| 0 <= a <= b < s.len() implies #[trigger] s[a]
            <= #[trigger] s[b] by {
            lemma_below_monotone(cs, a as nat, b as nat);
        }
        lemma_codes_below(cs, num_tokens as nat);
        lemma_all_below(cs, num_tokens as int, cs.len());
        assert(counts_exactly(s, cs));
    }
    Ok(index)
}

proof fn lemma_below_monotone(codes: Seq<Token>, a: nat, b: nat)
    requires
        a <= b,
    ensures
        codes_below(codes, a) <= codes_below(codes, b),
    decreases b,
{
    if a < b {
        lemma_below_monotone(codes, a, (b - 1) as nat);
    }
}

/// The number of codes as a prefix sum.
pub fn checked_frequency_total(len: usize) -> (r: Result<u32, TokenFrequencyIndexError>)
    ensures
        len <= u32::MAX ==> r == Ok::<u32, TokenFrequencyIndexError>(len as u32),
        len > u32::MAX ==> r == Err::<u32, TokenFrequencyIndexError>(
            TokenFrequencyIndexError::FrequencyOverflow,
        ),
{
    if len as u64 <= u32::MAX as u64 {
        Ok(len as u32)
    } else {
        Err(TokenFrequencyIndexError::FrequencyOverflow)
    }
}

/// What an exact index counts over a range is the sum of what it counts of
/// the range's tokens.
pub proof fn lemma_range_is_sum_of_tokens(sums: Seq<u32>, codes: Seq<Token>, begin: Token, last: Token)
    requires
        layout_ok(sums),
        count_fault(sums, codes) is None,
        begin <= last < sums.len() - 1,
    ensures
        range_sum(sums, TokenRange { begin, last }) == codes_below(codes, (last + 1) as nat)
            - codes_below(codes, begin as nat),
{
    lemma_exact_sums(sums, codes, (last + 1) as nat);
    lemma_exact_sums(sums, codes, begin as nat);
}

proof fn lemma_exact_sums(sums: Seq<u32>, codes: Seq<Token>, t: nat)
    requires
        layout_ok(sums),
        count_fault(sums, codes) is None,
        t < sums.len(),
    ensures
        sums[t as int] == codes_below(codes, t),
    decreases t,
{
    if t > 0 {
        lemma_exact_sums(sums, codes, (t - 1) as nat);
        assert(sums[(t - 1) + 1] - sums[t - 1] == occurrences(codes, t - 1, codes.len()));
    }
}

/// A layout passes validation just when there are at most 65536 tokens and one
/// prefix sum more than tokens, the first is 0, none falls below the one before
/// it, and the last is the number of codes. Each fault is reported where those
/// before it are absent: too many tokens, a wrong length, a first sum other
/// than 0, a sum that falls, a number of codes past 32 bits, a wrong last sum.
pub proof fn lemma_validation_is_exact(sums: Seq<u32>, num_tokens: int, total: int)
    requires
        num_tokens >= 0,
    ensures
        layout_fault(sums, num_tokens, total) is None <==> {
            &&& num_tokens <= 65536
            &&& sums.len() == num_tokens + 1
            &&& sums[0] == 0
            &&& forall|i: int| 0 < i < sums.len() ==> sums[i - 1] <= #[trigger] sums[i]
            &&& sums[num_tokens] == total
        },
        num_tokens > 65536 ==> layout_fault(sums, num_tokens, total) == Some(
            InvalidColumn::CodeOutOfRange,
        ),
        num_tokens <= 65536 && sums.len() != num_tokens + 1 ==> layout_fault(
            sums,
            num_tokens,
            total,
        ) == Some(InvalidColumn::FrequencyIndex(InvalidFrequencyIndex::BadLength)),
        num_tokens <= 65536 && sums.len() == num_tokens + 1 && sums[0] != 0 ==> layout_fault(
            sums,
            num_tokens,
            total,
        ) == Some(InvalidColumn::FrequencyIndex(InvalidFrequencyIndex::FirstCumulativeNotZero)),
        num_tokens <= 65536 && sums.len() == num_tokens + 1 && sums[0] == 0 && !(forall|i: int|
            0 < i < sums.len() ==> sums[i - 1] <= #[trigger] sums[i]) ==> layout_fault(
            sums,
            num_tokens,
            total,
        ) == Some(InvalidColumn::FrequencyIndex(InvalidFrequencyIndex::DecreasingCumulative)),
        num_tokens <= 65536 && sums.len() == num_tokens + 1 && sums[0] == 0 && (forall|i: int|
            0 < i < sums.len() ==> sums[i - 1] <= #[trigger] sums[i]) && sums[num_tokens] != total
            ==> layout_fault(sums, num_tokens, total) == Some(
            InvalidColumn::FrequencyIndex(
                if total > 0xffff_ffff {
                    InvalidFrequencyIndex::FrequencyOverflow
                } else {
                    InvalidFrequencyIndex::InvalidTotal
                },
            ),
        ),
{
    if decreases_somewhere(sums) {
        let i = choose|i: int| 0 <= i < sums.len() - 1 && sums[i] > #[trigger] sums[i + 1];
        assert(sums[(i + 1) - 1] > sums[i + 1]);
    }
    if !decreases_somewhere(sums) {
        assert forall|i: int| 0 < i < sums.len() implies sums[i - 1] <= #[trigger] sums[i] by {
            assert(sums[i - 1] <= sums[(i - 1) + 1]);
        }
    }
}

/// Sums count a stream just when there are as many codes as the last sum says,
/// every code is a token, and the step from each sum to the next is the number
/// of codes of that token. A wrong number of codes is a mismatch, a foreign
/// code is out of range, and a wrong step is a mismatch.
pub proof fn lemma_correctness_is_exact(sums: Seq<u32>, codes: Seq<Token>)
    requires
        sums.len() >= 1,
    ensures
        count_fault(sums, codes) is None <==> {
            &&& codes.len() == sums[sums.len() - 1]
            &&& forall|i: int| 0 <= i < codes.len() ==> #[trigger] codes[i] < sums.len() - 1
            &&& forall|t: int|
                0 < t < sums.len() ==> #[trigger] sums[t] - sums[t - 1] == occurrences(
                    codes,
                    t - 1,
                    codes.len(),
                )
        },
        codes.len() == sums[sums.len() - 1] && (exists|i: int|
            0 <= i < codes.len() && #[trigger] codes[i] >= sums.len() - 1) ==> count_fault(
            sums,
            codes,
        ) == Some(InvalidColumn::CodeOutOfRange),
        count_fault(sums, codes) is Some && !(codes.len() == sums[sums.len() - 1] && (exists|i: int|
            0 <= i < codes.len() && #[trigger] codes[i] >= sums.len() - 1)) ==> count_fault(
            sums,
            codes,
        ) == Some(InvalidColumn::FrequencyIndex(InvalidFrequencyIndex::FrequenciesMismatch)),
{
    if counts_exactly(sums, codes) {
        assert forall|t: int| 0 < t < sums.len() implies #[trigger] sums[t] - sums[t - 1]
            == occurrences(codes, t - 1, codes.len()) by {
            let u = t - 1;
            assert(sums[u + 1] - sums[u] == occurrences(codes, u, codes.len()));
        }
    }
    if forall|t: int|
        0 < t < sums.len() ==> #[trigger] sums[t] - sums[t - 1] == occurrences(
            codes,
            t - 1,
            codes.len(),
        ) {
        assert forall|t: int| 0 <= t < sums.len() - 1 implies #[trigger] sums[t + 1] - sums[t]
            == occurrences(codes, t, codes.len()) by {
            let u = t + 1;
            assert(sums[u] - sums[u - 1] == occurrences(codes, u - 1, codes.len()));
        }
    }
}

/// Entry `t` of an index is the number of codes whose token id is below `t`.
pub proof fn lemma_entries_count_smaller_codes(codes: Seq<Token>, t: nat)
    ensures
        codes_below(codes, t) == set_int_range(0, codes.len() as int).filter(
            |i: int| codes[i] < t,
        ).len(),
{
    lemma_codes_below(codes, t);
    lemma_below_counted(codes, t as int, codes.len());
}

proof fn lemma_below_counted(codes: Seq<Token>, t: int, k: nat)
    ensures
        below_upto(codes, t, k) == set_int_range(0, k as int).filter(|i: int| codes[i] < t).len(),
    decreases k,
{
    let f = |i: int| codes[i] < t;
    if k == 0 {
        lemma_count_none(f);
    } else {
        lemma_below_counted(codes, t, (k - 1) as nat);
        lemma_count_next(k - 1, f);
    }
}

/// The frequency of a range, by sums that count a stream exactly, is the number
/// of its codes that lie in the range.
pub proof fn lemma_range_counts_its_codes(sums: Seq<u32>, codes: Seq<Token>, r: TokenRange)
    requires
        counts_exactly(sums, codes),
        r.begin <= r.last ==> r.last < sums.len() - 1,
    ensures
        range_sum(sums, r) == set_int_range(0, codes.len() as int).filter(
            |i: int| r.begin <= codes[i] <= r.last,
        ).len(),
{
    let n = codes.len() as int;
    let f = |i: int| r.begin <= codes[i] <= r.last;
    if r.begin > r.last {
        assert(set_int_range(0, n).filter(f) =~= Set::<int>::empty());
    } else {
        lemma_span_counted(sums, codes, r.begin as int, r.last + 1);
        assert(set_int_range(0, n).filter(f) =~= set_int_range(0, n).filter(
            |i: int| r.begin <= codes[i] < r.last + 1,
        ));
    }
}

/// The step from one exact sum to a later one is the number of codes of the
/// tokens between them.
pub proof fn lemma_span_counted(sums: Seq<u32>, codes: Seq<Token>, a: int, b: int)
    requires
        counts_exactly(sums, codes),
        0 <= a <= b < sums.len(),
    ensures
        sums[b] - sums[a] == set_int_range(0, codes.len() as int).filter(
            |i: int| a <= codes[i] < b,
        ).len(),
    decreases b - a,
{
    let n = codes.len() as int;
    let all = set_int_range(0, n);
    let f = |i: int| a <= codes[i] < b;
    if a == b {
        assert(all.filter(f) =~= Set::<int>::empty());
    } else {
        lemma_span_counted(sums, codes, a, b - 1);
        let g = |i: int| a <= codes[i] < b - 1;
        let h = |i: int| codes[i] == b - 1;
        lemma_occurrences_counted(codes, b - 1, codes.len());
        assert(sums[(b - 1) + 1] - sums[b - 1] == occurrences(codes, b - 1, codes.len()));
        lemma_count_finite(n, g);
        lemma_count_finite(n, h);
        assert(all.filter(g).disjoint(all.filter(h)));
        assert(all.filter(f) =~= all.filter(g).union(all.filter(h)));
        vstd::set_lib::lemma_set_disjoint_lens(all.filter(g), all.filter(h));
    }
}

/// An index that was built for a stream validates against it, in any storage
/// that holds its sums.
pub proof fn lemma_built_index_validates(sums: Seq<u32>, codes: Seq<Token>, num_tokens: nat)
    requires
        num_tokens <= 65536,
        codes.len() <= 0xffff_ffff,
        sums.len() == num_tokens + 1,
        forall|i: int| 0 <= i < codes.len() ==> #[trigger] codes[i] < num_tokens,
        forall|t: int|
            0 <= t <= num_tokens ==> #[trigger] sums[t] == set_int_range(
                0,
                codes.len() as int,
            ).filter(|i: int| codes[i] < t).len(),
    ensures
        layout_fault(sums, num_tokens as int, codes.len() as int) is None,
        count_fault(sums, codes) is None,
{
    assert forall|t: int| 0 <= t <= num_tokens implies #[trigger] sums[t] == codes_below(
        codes,
        t as nat,
    ) by {
        lemma_entries_count_smaller_codes(codes, t as nat);
        assert(set_int_range(0, codes.len() as int).filter(|i: int| codes[i] < t as nat)
            =~= set_int_range(0, codes.len() as int).filter(|i: int| codes[i] < t));
    }
    assert(sums[0] == codes_below(codes, 0));
    assert(!decreases_somewhere(sums)) by {
        if decreases_somewhere(sums) {
            let i = choose|i: int| 0 <= i < sums.len() - 1 && sums[i] > #[trigger] sums[i + 1];
            assert(sums[i] == codes_below(codes, i as nat));
            lemma_below_monotone(codes, i as nat, (i + 1) as nat);
        }
    }
    lemma_codes_below(codes, num_tokens);
    lemma_all_below(codes, num_tokens as int, codes.len());
    assert(sums[num_tokens as int] == codes.len());
    assert(counts_exactly(sums, codes)) by {
        assert forall|t: int| 0 <= t < sums.len() - 1 implies #[trigger] sums[t + 1] - sums[t]
            == occurrences(codes, t, codes.len()) by {
            assert(sums[t + 1] == codes_below(codes, (t + 1) as nat));
            assert(sums[t] == codes_below(codes, t as nat));
        }
    }
    assert(!has_foreign_code(codes, num_tokens as int));
}

/// Codes name, one by one, the token ids that they are.
pub proof fn lemma_ids_are_codes(a: Seq<Token>, b: Seq<u8>)
    ensures
        ids(a) =~= a,
        ids(b).len() == b.len(),
        forall|i: int| 0 <= i < b.len() ==> #[trigger] ids(b)[i] == b[i],
{
}

/// A failed build is told by its cause: more codes than 32 bits count, else
/// more tokens than 16 bits name, else a code that is no token.
pub proof fn lemma_foreign_code_means(codes: Seq<Token>, num_tokens: int)
    ensures
        has_foreign_code(codes, num_tokens) <==> !(forall|i: int|
            0 <= i < codes.len() ==> #[trigger] codes[i] < num_tokens),
{
}

/// A check succeeds just where there is no fault, and reports the fault else.
pub proof fn lemma_verdict_reports_the_fault(fault: Option<InvalidColumn>)
    ensures
        verdict(fault) is Ok <==> fault is None,
        fault matches Some(e) ==> verdict(fault) == Err::<(), InvalidColumn>(e),
{
}

} // verus!
