//! Tests of the matching-term table and of the lower stages directly.

use highlighter::match_bounds::{get_match_bounds, MatchBounds};
use highlighter::matching_words::{LocatedQueryTerm, Match, MatchingWords, QueryPositionRange};
use highlighter::tokens::{tokens_well_formed, SeparatorKind, Token, TokenKind};
use highlighter::FormatOptions;

fn word_term(w: &str, pos: u16, prefix: bool) -> LocatedQueryTerm {
    LocatedQueryTerm {
        word_derivations: vec![w.to_string()],
        phrase_derivations: vec![],
        is_prefix: prefix,
        original_word: w.to_string(),
        position: QueryPositionRange { start: pos, end: pos },
    }
}

/// One word token covering the whole of `lemma`.
fn word_token(lemma: &str) -> Token {
    Token {
        lemma: lemma.to_string(),
        char_start: 0,
        char_end: lemma.chars().count(),
        byte_start: 0,
        byte_end: lemma.len(),
        kind: TokenKind::Word,
    }
}

fn first_match(table: &MatchingWords, lemma: &str) -> Option<Match> {
    let tokens = vec![word_token(lemma)];
    assert!(tokens_well_formed(&tokens, lemma));
    let matches = table.get_matches(lemma, &tokens);
    matches.into_iter().next()
}

#[test]
fn matching_words() {
    let matching_words = MatchingWords::new(vec![
        word_term("split", 0, false),
        word_term("this", 1, false),
        word_term("world", 2, true),
    ]);

    let m = first_match(&matching_words, "split").unwrap();
    assert_eq!(m.char_count, 5);
    assert_eq!(m.byte_len, 5);
    assert_eq!(m.position, QueryPositionRange { start: 0, end: 0 });

    assert!(first_match(&matching_words, "nyc").is_none());

    let m = first_match(&matching_words, "world").unwrap();
    assert_eq!(m.char_count, 5);
    assert_eq!(m.byte_len, 5);
    assert_eq!(m.position, QueryPositionRange { start: 2, end: 2 });

    let m = first_match(&matching_words, "worlded").unwrap();
    assert_eq!(m.char_count, 5);
    assert_eq!(m.byte_len, 5);
    assert_eq!(m.position, QueryPositionRange { start: 2, end: 2 });

    assert!(first_match(&matching_words, "thisnew").is_none());
}

/// A hand-built token run over "ab cd": two words and a soft separator.
fn ab_cd_tokens() -> (&'static str, Vec<Token>) {
    let text = "ab cd";
    let tokens = vec![
        Token {
            lemma: "ab".to_string(),
            char_start: 0,
            char_end: 2,
            byte_start: 0,
            byte_end: 2,
            kind: TokenKind::Word,
        },
        Token {
            lemma: " ".to_string(),
            char_start: 2,
            char_end: 3,
            byte_start: 2,
            byte_end: 3,
            kind: TokenKind::Separator(SeparatorKind::Soft),
        },
        Token {
            lemma: "cd".to_string(),
            char_start: 3,
            char_end: 5,
            byte_start: 3,
            byte_end: 5,
            kind: TokenKind::Word,
        },
    ];
    (text, tokens)
}

#[test]
fn token_run_validation() {
    let (text, tokens) = ab_cd_tokens();
    assert!(tokens_well_formed(&tokens, text));

    // a gap between tokens is rejected
    let mut broken = tokens.clone();
    broken[1].byte_start = 1;
    assert!(!tokens_well_formed(&broken, text));

    // an offset off a character boundary is rejected
    let two_chars = "é!";
    let bad = vec![Token {
        lemma: "x".to_string(),
        char_start: 0,
        char_end: 1,
        byte_start: 0,
        byte_end: 1,
        kind: TokenKind::Word,
    }];
    assert!(!tokens_well_formed(&bad, two_chars));
}

#[test]
fn bounds_of_word_matches() {
    let (text, tokens) = ab_cd_tokens();
    let table = MatchingWords::new(vec![word_term("cd", 0, false)]);
    let matches = table.get_matches(text, &tokens);
    assert_eq!(matches.len(), 1);
    assert_eq!(matches[0].first_token, 2);
    assert_eq!(matches[0].last_token, 2);
    assert_eq!(matches[0].first_word, 1);
    assert_eq!(matches[0].last_word, 1);
    assert_eq!(matches[0].byte_len, 2);

    // highlight only: the offsets bracket the match inside the full text
    let bounds = get_match_bounds(
        text,
        &tokens,
        &matches,
        FormatOptions { highlight: true, crop: None },
    );
    match bounds {
        MatchBounds::Formatted { highlight_toggle, indexes } => {
            assert!(!highlight_toggle);
            assert_eq!(indexes, vec![0, 3, 5]);
            // every offset is a character boundary and the list never decreases
            for w in indexes.windows(2) {
                assert!(w[0] <= w[1]);
            }
            for &i in &indexes {
                assert!(text.is_char_boundary(i));
            }
        },
        MatchBounds::Full => panic!("expected formatted bounds"),
    }

    // no formatting requested: the text comes back verbatim
    let bounds = get_match_bounds(
        text,
        &tokens,
        &matches,
        FormatOptions { highlight: false, crop: None },
    );
    assert_eq!(bounds, MatchBounds::Full);

    // a zero crop is no crop
    let bounds = get_match_bounds(
        text,
        &tokens,
        &matches,
        FormatOptions { highlight: false, crop: Some(0) },
    );
    assert_eq!(bounds, MatchBounds::Full);
}

#[test]
fn bounds_without_matches() {
    let (text, tokens) = ab_cd_tokens();
    let table = MatchingWords::new(vec![]);
    let matches = table.get_matches(text, &tokens);
    assert_eq!(matches.len(), 0);

    // crop of one word: the window is the first word, with a trailing marker
    let bounds = get_match_bounds(
        text,
        &tokens,
        &matches,
        FormatOptions { highlight: false, crop: Some(1) },
    );
    assert_eq!(
        bounds,
        MatchBounds::Formatted { highlight_toggle: false, indexes: vec![0, 2] }
    );

    // a wide crop reaches the text's end: no truncation
    let bounds = get_match_bounds(
        text,
        &tokens,
        &matches,
        FormatOptions { highlight: false, crop: Some(10) },
    );
    assert_eq!(
        bounds,
        MatchBounds::Formatted { highlight_toggle: false, indexes: vec![0, 5] }
    );
}

#[test]
fn options_merge_and_should_format() {
    let none = FormatOptions { highlight: false, crop: None };
    let hl = FormatOptions { highlight: true, crop: None };
    let crop = FormatOptions { highlight: false, crop: Some(3) };

    assert!(!none.should_format());
    assert!(hl.should_format());
    assert!(crop.should_format());

    let merged = hl.merge(crop);
    assert!(merged.highlight);
    assert_eq!(merged.crop, Some(3));

    let merged = crop.merge(FormatOptions { highlight: false, crop: Some(7) });
    assert_eq!(merged.crop, Some(3));
    assert!(!merged.highlight);
}
