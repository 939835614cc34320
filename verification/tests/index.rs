//! The token-frequency index and its stored forms.

use onpair::search::index::frequency::{
    build_token_frequency_index, checked_frequency_total,
    BorrowedTokenFrequencyIndexStorage as ExternalStorage, OwnedTokenFrequencyIndexStorage,
    TokenFrequencyIndex, TokenFrequencyIndexError, TokenFrequencyIndexView,
};
use onpair::types::{Token, TokenRange};
use onpair::validate::{InvalidColumn, InvalidFrequencyIndex};

fn invalid_index(error: InvalidFrequencyIndex) -> InvalidColumn {
    InvalidColumn::FrequencyIndex(error)
}

#[test]
fn builder_preserves_frequency_behavior_and_errors() {
    let codes = [2u16, 0, 2, 3, 2, 0];
    let index = build_token_frequency_index(&codes, 5).unwrap();

    assert_eq!(index.num_tokens(), 5);
    assert_eq!(
        (0..5).map(|id| index.frequency(id)).collect::<Vec<_>>(),
        [2, 0, 3, 1, 0]
    );
    assert_eq!(index.range_frequency(TokenRange { begin: 1, last: 3 }), 4);
    assert_eq!(index.range_frequency(TokenRange::empty_range()), 0);
    assert_eq!(index.check_correctness(&codes), Ok(()));
    assert_eq!(
        build_token_frequency_index(&[0u16, 2], 2).map(|_| ()),
        Err(TokenFrequencyIndexError::CodeOutOfRange)
    );
    assert_eq!(
        build_token_frequency_index::<Token>(&[], Token::MAX as usize + 2).map(|_| ()),
        Err(TokenFrequencyIndexError::TooManyTokens)
    );
    assert_eq!(
        checked_frequency_total(u32::MAX as usize + 1),
        Err(TokenFrequencyIndexError::FrequencyOverflow)
    );
}

#[test]
fn safety_and_full_validation_distinguish_inexact_frequencies() {
    let codes = [0u16, 0, 2, 2];
    let cumulative = [0, 0, 2, 4];
    let index =
        TokenFrequencyIndex::validate_safety(ExternalStorage(&cumulative), 3, codes.len()).unwrap();

    assert_eq!(index.frequency(0), 0);
    assert_eq!(
        index.check_correctness(&codes),
        Err(invalid_index(InvalidFrequencyIndex::FrequenciesMismatch))
    );
    assert_eq!(
        TokenFrequencyIndex::validate(ExternalStorage(&cumulative), &codes, 3).map(|_| ()),
        Err(invalid_index(InvalidFrequencyIndex::FrequenciesMismatch))
    );
    assert_eq!(
        TokenFrequencyIndexView::validate(&cumulative, &codes, 3).map(drop),
        Err(invalid_index(InvalidFrequencyIndex::FrequenciesMismatch))
    );
}

#[test]
fn external_storage_is_retained_and_uses_the_same_queries() {
    let codes = [0u16, 0, 2, 2, 2, 3];
    let cumulative = [0, 2, 2, 5, 6];
    let original = cumulative.as_ptr();
    let owned = build_token_frequency_index(&codes, 4).unwrap();
    let index = TokenFrequencyIndex::validate(ExternalStorage(&cumulative), &codes, 4).unwrap();

    assert_eq!(index.storage().0.as_ptr(), original);
    assert_eq!(index.as_view().cumulative().as_ptr(), original);
    assert_eq!(index.frequency(2), owned.frequency(2));
    assert_eq!(
        index.range_frequency(TokenRange { begin: 1, last: 3 }),
        owned.range_frequency(TokenRange { begin: 1, last: 3 })
    );
    assert_eq!(
        TokenFrequencyIndexView::validate(&cumulative, &codes, 4)
            .unwrap()
            .cumulative()
            .as_ptr(),
        original
    );
    assert_eq!(index.into_storage().0.as_ptr(), original);
}

#[test]
fn rejects_malformed_stored_representations() {
    let validate = |cumulative: &[u32], num_tokens, total_codes| {
        TokenFrequencyIndexView::validate_safety(cumulative, num_tokens, total_codes).map(|_| ())
    };

    let cases: &[(&[u32], usize, usize, InvalidColumn)] = &[
        (
            &[0, 1],
            2,
            1,
            invalid_index(InvalidFrequencyIndex::BadLength),
        ),
        (
            &[1, 1],
            1,
            1,
            invalid_index(InvalidFrequencyIndex::FirstCumulativeNotZero),
        ),
        (
            &[0, 2, 1],
            2,
            1,
            invalid_index(InvalidFrequencyIndex::DecreasingCumulative),
        ),
        (
            &[0, 1, 3],
            2,
            2,
            invalid_index(InvalidFrequencyIndex::InvalidTotal),
        ),
        (
            &[],
            Token::MAX as usize + 2,
            0,
            InvalidColumn::CodeOutOfRange,
        ),
    ];
    for &(cumulative, num_tokens, total_codes, error) in cases {
        assert_eq!(validate(cumulative, num_tokens, total_codes), Err(error));
    }
    assert_eq!(
        validate(&[0], 0, u32::MAX as usize + 1),
        Err(invalid_index(InvalidFrequencyIndex::FrequencyOverflow))
    );
}

#[test]
fn correctness_rejects_out_of_range_codes_and_wrong_totals() {
    let out_of_range = TokenFrequencyIndexView::validate_safety(&[0, 1, 1], 2, 1).unwrap();
    assert_eq!(
        out_of_range.check_correctness(&[2]),
        Err(InvalidColumn::CodeOutOfRange)
    );

    let wrong_total = TokenFrequencyIndexView::validate_safety(&[0, 2], 1, 2).unwrap();
    assert_eq!(
        wrong_total.check_correctness(&[0]),
        Err(invalid_index(InvalidFrequencyIndex::FrequenciesMismatch))
    );
}

#[test]
fn owned_storage_round_trips() {
    let storage = OwnedTokenFrequencyIndexStorage::new(vec![0, 1, 3]);
    let index = TokenFrequencyIndex::validate(storage, &[0u16, 1, 1], 2).unwrap();
    assert_eq!(index.total_frequency(), 3);
    assert_eq!(index.into_storage().into_raw(), vec![0, 1, 3]);
}

#[test]
fn byte_codes_count_like_wide_ones() {
    let bytes = [3u8, 3, 0, 200];
    let wide = [3u16, 3, 0, 200];
    let a = build_token_frequency_index(&bytes, 256).unwrap();
    let b = build_token_frequency_index(&wide, 256).unwrap();
    assert_eq!(a.as_view().cumulative(), b.as_view().cumulative());
    assert_eq!(a.frequency(3), 2);
}

#[test]
fn a_range_is_the_sum_of_its_tokens() {
    let codes = [5u16, 1, 1, 4, 0, 5, 5];
    let index = build_token_frequency_index(&codes, 6).unwrap();
    for begin in 0..6u16 {
        for last in begin..6 {
            let sum: u32 = (begin..=last).map(|t| index.frequency(t)).sum();
            assert_eq!(index.range_frequency(TokenRange { begin, last }), sum);
        }
    }
}

#[test]
fn each_error_has_its_message() {
    assert_eq!(
        TokenFrequencyIndexError::FrequencyOverflow.message(),
        "code stream is too large for a u32 frequency index"
    );
    assert_eq!(
        TokenFrequencyIndexError::TooManyTokens.message(),
        "token count exceeds the Token id domain"
    );
    assert_eq!(
        TokenFrequencyIndexError::CodeOutOfRange.message(),
        "code index is outside the frequency index token domain"
    );
}
