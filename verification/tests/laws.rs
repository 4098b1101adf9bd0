//! Concrete checks of the library's stated laws.

use charabia::TokenizerBuilder;
use highlighter::matching_words::{LocatedQueryTerm, MatchingWords, QueryPositionRange};
use highlighter::tokens::{tokens_well_formed, Token, TokenKind};
use highlighter::{FormatOptions, MatcherBuilder};

fn word_term(w: &str, pos: u16, prefix: bool) -> LocatedQueryTerm {
    LocatedQueryTerm {
        word_derivations: vec![w.to_string()],
        phrase_derivations: vec![],
        is_prefix: prefix,
        original_word: w.to_string(),
        position: QueryPositionRange { start: pos, end: pos },
    }
}

/// Highlight-only formatting with an empty matching-term table returns the
/// input unchanged.
#[test]
fn empty_query_identity() {
    let builder = MatcherBuilder::new(
        MatchingWords::new(vec![]),
        TokenizerBuilder::default().into_tokenizer(),
    );
    let format_options = FormatOptions { highlight: true, crop: None };
    let text = "A quick brown fox can not jump 32 feet, right? Brr, it is cold!";
    let mut matcher = builder.build(text, None);
    assert_eq!(&matcher.get_formatted_text(format_options), &text);
}

/// Stripping the delimiters and markers from a formatted output leaves one
/// contiguous substring of the text.
#[test]
fn strip_round_trip() {
    let builder = MatcherBuilder::new(
        MatchingWords::new(vec![
            word_term("split", 0, false),
            word_term("the", 1, false),
            word_term("world", 2, true),
        ]),
        TokenizerBuilder::default().into_tokenizer(),
    );
    let text = "Natalie risk her future to build a world with the boy she loves.";
    let format_options = FormatOptions { highlight: true, crop: Some(10) };
    let mut matcher = builder.build(text, None);
    let out = matcher.get_formatted_text(format_options);
    let stripped = out.replace("<em>", "").replace("</em>", "").replace("…", "");
    assert!(text.contains(&stripped));
    assert_eq!(stripped, "future to build a world with the boy she loves.");
}

/// Growing the crop budget never shrinks the returned window.
#[test]
fn crop_window_grows() {
    let builder = MatcherBuilder::new(
        MatchingWords::new(vec![
            word_term("split", 0, false),
            word_term("the", 1, false),
            word_term("world", 2, true),
        ]),
        TokenizerBuilder::default().into_tokenizer(),
    );
    let text = "void void split the world void void.";
    let mut previous_len = 0;
    for crop in 1..=8 {
        let format_options = FormatOptions { highlight: false, crop: Some(crop) };
        let mut matcher = builder.build(text, None);
        let out = matcher.get_formatted_text(format_options);
        let window = out.replace("…", "");
        assert!(window.len() >= previous_len);
        previous_len = window.len();
    }
}

/// No two matches overlap in token positions.
#[test]
fn matches_are_disjoint() {
    let table = MatchingWords::new(vec![
        word_term("do", 0, false),
        word_term("or", 1, false),
    ]);
    let text = "do or do or do";
    let tokens: Vec<Token> = {
        let tokenizer = TokenizerBuilder::default().into_tokenizer();
        tokenizer
            .tokenize(text)
            .map(|t| Token {
                lemma: t.lemma().to_string(),
                char_start: t.char_start,
                char_end: t.char_end,
                byte_start: t.byte_start,
                byte_end: t.byte_end,
                kind: if t.is_separator() {
                    TokenKind::Separator(highlighter::tokens::SeparatorKind::Soft)
                } else {
                    TokenKind::Word
                },
            })
            .collect()
    };
    assert!(tokens_well_formed(&tokens, text));
    let matches = table.get_matches(text, &tokens);
    assert_eq!(matches.len(), 5);
    for pair in matches.windows(2) {
        assert!(pair[0].last_token < pair[1].first_token);
    }
}
