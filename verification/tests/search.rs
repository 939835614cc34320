//! Tokenization, token lookup, prefix search and the token-level automaton.

use onpair::dictionary::{DictView, Parts};
use onpair::search::kmp::{KmpAutomaton, CHAIN_CONT, CHAIN_DEFINITE, CHAIN_OPEN};
use onpair::search::lookup::{longest_token, prefix_range};
use onpair::search::prefix::PrefixAutomaton;
use onpair::search::tokenize::tokenize;
use onpair::types::{Token, TokenRange};
use std::collections::BTreeSet;

struct Dict {
    bytes: Vec<u8>,
    offsets: Vec<u32>,
}

impl Dict {
    fn new(extra: &[&[u8]]) -> Dict {
        let mut tokens: BTreeSet<Vec<u8>> = (0..=255u8).map(|b| vec![b]).collect();
        tokens.extend(extra.iter().map(|t| t.to_vec()));
        let mut bytes = Vec::new();
        let mut offsets = vec![0u32];
        for token in &tokens {
            bytes.extend_from_slice(token);
            offsets.push(bytes.len() as u32);
        }
        Dict { bytes, offsets }
    }

    fn view(&self) -> DictView<'_> {
        DictView::new(&self.bytes, &self.offsets)
    }

    fn id(&self, token: &[u8]) -> Token {
        (0..self.view().num_tokens() as Token)
            .find(|&id| self.view().token(id) == token)
            .unwrap()
    }

    fn decode(&self, codes: &[Token]) -> Vec<u8> {
        codes
            .iter()
            .flat_map(|&code| self.view().token(code).to_vec())
            .collect()
    }
}

const EXTRA: &[&[u8]] = &[
    b"ab", b"abc", b"bc", b"bca", b"ca", b"cab", b"aa", b"aaaa", b"abab", b"baa",
];

/// Strings over a tiny alphabet, from a fixed seed.
fn texts(count: usize) -> Vec<Vec<u8>> {
    let mut state = 0x9E37_79B9u64;
    let mut next = move || {
        state = state
            .wrapping_mul(6364136223846793005)
            .wrapping_add(1442695040888963407);
        state >> 33
    };
    (0..count)
        .map(|_| {
            let len = (next() % 20) as usize;
            (0..len).map(|_| b'a' + (next() % 3) as u8).collect()
        })
        .collect()
}

fn byte_contains(hay: &[u8], needle: &[u8]) -> bool {
    needle.is_empty() || hay.windows(needle.len()).any(|w| w == needle)
}

#[test]
fn tokens_are_the_longest_that_fit() {
    let dict = Dict::new(EXTRA);
    let codes = tokenize(b"abcabab", dict.view());
    assert_eq!(codes, vec![dict.id(b"abc"), dict.id(b"abab")]);
    for text in texts(200) {
        let codes = tokenize(&text, dict.view());
        assert_eq!(dict.decode(&codes), text);
        let mut at = 0;
        for &code in &codes {
            let (longest, len) = longest_token(dict.view(), &text[at..]).unwrap();
            assert_eq!(longest, code);
            at += len;
        }
    }
}

#[test]
fn a_prefix_range_is_contiguous_and_whole() {
    let dict = Dict::new(EXTRA);
    for prefix in [&b""[..], b"a", b"ab", b"aba", b"abcd", b"z", b"\xff"] {
        let range = prefix_range(dict.view(), prefix);
        for id in 0..dict.view().num_tokens() as Token {
            assert_eq!(
                range.contains(id),
                dict.view().token(id).starts_with(prefix),
                "{prefix:?} at {id}"
            );
        }
    }
    assert!(TokenRange::empty_range().is_empty());
}

#[test]
fn no_token_fits_an_incomplete_dictionary() {
    let bytes = b"ab".to_vec();
    let offsets = vec![0u32, 1, 2];
    let dict = DictView::new(&bytes, &offsets);
    assert_eq!(longest_token(dict, b"ba"), Some((1, 1)));
    assert_eq!(longest_token(dict, b"cb"), None);
    assert_eq!(longest_token(dict, b""), None);
}

#[test]
fn prefixes_match_as_their_bytes_do() {
    let dict = Dict::new(EXTRA);
    for prefix in [
        &b""[..], b"a", b"ab", b"abc", b"abca", b"abcab", b"b", b"caa", b"aaaaa", b"zz",
    ] {
        let automaton = PrefixAutomaton::new(prefix, dict.view());
        assert_eq!(automaton.is_empty_query(), prefix.is_empty());
        for text in texts(300) {
            let codes = tokenize(&text, dict.view());
            assert_eq!(
                automaton.matches(&codes),
                text.starts_with(prefix),
                "{prefix:?} in {text:?}"
            );
        }
    }
}

/// What a row's first code says: accepted, to be checked, or rejected.
#[test]
fn first_codes_decide_or_defer() {
    let dict = Dict::new(EXTRA);
    for prefix in [&b"a"[..], b"ab", b"abca", b"abcab", b"bcab", b"aaaaa"] {
        let automaton = PrefixAutomaton::new(prefix, dict.view());
        let prefilter = automaton.prefilter();
        for text in texts(300) {
            let codes = tokenize(&text, dict.view());
            if codes.is_empty() {
                continue;
            }
            let first = codes[0] as u32;
            let accepted = first.wrapping_sub(prefilter.alo) <= prefilter.awidth;
            let expected = text.starts_with(prefix);
            if accepted {
                assert!(expected);
            } else if first != prefilter.vpoint {
                assert!(!expected);
            } else {
                assert!(prefilter.needs_verify());
                assert_eq!(automaton.matches(&codes), expected);
            }
        }
    }
}

/// The walk of codes that are not greedy goes by the codes, not the bytes.
#[test]
fn prefix_walks_go_by_the_codes() {
    let dict = Dict::new(EXTRA);
    let automaton = PrefixAutomaton::new(b"ab", dict.view());
    assert!(!automaton.matches(&[dict.id(b"a"), dict.id(b"b")]));
    assert!(automaton.matches(&[dict.id(b"abc")]));
    assert!(!automaton.prefilter().needs_verify());

    let automaton = PrefixAutomaton::new(b"abca", dict.view());
    let abc = dict.id(b"abc");
    let prefilter = automaton.prefilter();
    assert_eq!(prefilter.vpoint, abc as u32);
    assert!(automaton.matches(&[abc, dict.id(b"a")]));
    assert!(automaton.matches(&[abc, dict.id(b"ab")]));
    assert!(!automaton.matches(&[abc]));
    assert!(!automaton.matches(&[abc, 60000]));
    assert!(!automaton.matches(&[]));
}

const NEEDLES: &[&[u8]] = &[
    b"a", b"ab", b"aab", b"abcab", b"bca", b"aaaa", b"aaaaa", b"cabc", b"bb", b"abababc",
];

#[test]
fn the_automaton_matches_as_bytes_do() {
    let dict = Dict::new(EXTRA);
    for needle in NEEDLES {
        let automaton = KmpAutomaton::new(needle, dict.view());
        assert!(!automaton.is_empty_needle());
        for text in texts(300) {
            let codes = tokenize(&text, dict.view());
            assert_eq!(
                automaton.matches(&codes),
                byte_contains(&text, needle),
                "{needle:?} in {text:?}"
            );
        }
    }
    let empty = KmpAutomaton::new(b"", dict.view());
    assert!(empty.is_empty_needle());
    assert!(empty.matches(&[]));
}

/// The automaton needs no greedy rows.
#[test]
fn the_automaton_takes_any_codes() {
    let dict = Dict::new(EXTRA);
    let codes = [dict.id(b"a"), dict.id(b"b"), dict.id(b"ca"), dict.id(b"b")];
    for (needle, expect) in [
        (&b"abca"[..], true),
        (b"bcab", true),
        (b"abcab", true),
        (b"abcb", false),
    ] {
        let automaton = KmpAutomaton::new(needle, dict.view());
        assert_eq!(automaton.matches(&codes), expect);
    }
}

#[test]
fn the_longest_needle_is_found() {
    let dict = Dict::new(EXTRA);
    let needle: Vec<u8> = (0..255).map(|i| b"abcab"[i % 5]).collect();
    let automaton = KmpAutomaton::new(&needle, dict.view());
    let mut text = b"xx".to_vec();
    text.extend_from_slice(&needle);
    assert!(automaton.matches(&tokenize(&text, dict.view())));
    text.remove(100);
    assert!(!automaton.matches(&tokenize(&text, dict.view())));
}

#[test]
fn chain_flags_are_those_of_the_bytes() {
    let dict = Dict::new(&[b"abcd", b"cd", b"dx", b"xab"]);
    let automaton = KmpAutomaton::new(b"abcd", dict.view());
    let table = automaton.chain_table();
    assert_eq!(table.len(), dict.view().num_tokens());
    let all = CHAIN_DEFINITE + CHAIN_OPEN + CHAIN_CONT;
    assert_eq!(table[dict.id(b"abcd") as usize], all);
    assert_eq!(table[dict.id(b"xab") as usize], CHAIN_OPEN + CHAIN_CONT);
    assert_eq!(table[dict.id(b"a") as usize], CHAIN_OPEN + CHAIN_CONT);
    assert_eq!(table[dict.id(b"cd") as usize], CHAIN_CONT);
    assert_eq!(table[dict.id(b"dx") as usize], CHAIN_CONT);
    assert_eq!(table[dict.id(b"x") as usize], 0);
}

/// Every matching row has a definite token, or an open one before one that
/// goes on.
#[test]
fn every_match_leaves_a_chain() {
    let dict = Dict::new(EXTRA);
    for needle in NEEDLES {
        let automaton = KmpAutomaton::new(needle, dict.view());
        let table = automaton.chain_table();
        let inner = automaton.inner_ranges(usize::MAX).unwrap();
        assert!(inner.windows(2).all(|w| (w[0].1 as u32) + 1 < w[1].0 as u32));
        for text in texts(300) {
            if !byte_contains(&text, needle) {
                continue;
            }
            let codes = tokenize(&text, dict.view());
            let flags: Vec<u8> = codes.iter().map(|&c| table[c as usize]).collect();
            let definite = flags.iter().any(|f| f & CHAIN_DEFINITE != 0);
            let pair = flags
                .windows(2)
                .any(|w| w[0] & CHAIN_OPEN != 0 && w[1] & CHAIN_CONT != 0);
            assert!(definite || pair, "{needle:?} in {text:?}");
            assert!(codes
                .iter()
                .any(|&c| inner.iter().any(|&(lo, hi)| lo <= c && c <= hi)));
        }
    }
}

#[test]
fn inner_ranges_are_capped() {
    let dict = Dict::new(EXTRA);
    let automaton = KmpAutomaton::new(b"abcab", dict.view());
    let all = automaton.inner_ranges(usize::MAX).unwrap();
    assert!(!all.is_empty());
    assert_eq!(automaton.inner_ranges(all.len()), Some(all.clone()));
    assert_eq!(automaton.inner_ranges(all.len() - 1), None);
}

#[test]
fn parts_are_validated() {
    let bytes = b"abcd".to_vec();
    let good = Parts {
        dict_bytes: &bytes,
        dict_offsets: &[0, 2, 4],
        codes: &[0, 1, 1],
    };
    assert!(good.validate_dictionary());
    assert!(good.validate());
    let foreign = Parts {
        codes: &[2],
        ..good
    };
    assert!(!foreign.validate());
    let empty_token = Parts {
        dict_offsets: &[0, 2, 2],
        ..good
    };
    assert!(!empty_token.validate_dictionary());
    let past_the_end = Parts {
        dict_offsets: &[0, 5],
        ..good
    };
    assert!(!past_the_end.validate_dictionary());
}
