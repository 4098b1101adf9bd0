//! End-to-end tests of the highlighter over real tokenizer output.

use charabia::TokenizerBuilder;
use highlighter::matching_words::{LocatedQueryTerm, MatchingWords, QueryPositionRange};
use highlighter::{FormatOptions, MatcherBuilder};

fn word_term(w: &str, pos: u16, prefix: bool) -> LocatedQueryTerm {
    LocatedQueryTerm {
        word_derivations: vec![w.to_string()],
        phrase_derivations: vec![],
        is_prefix: prefix,
        original_word: w.to_string(),
        position: QueryPositionRange { start: pos, end: pos },
    }
}

fn phrase_term(words: &[&str], start: u16, end: u16) -> LocatedQueryTerm {
    LocatedQueryTerm {
        word_derivations: vec![],
        phrase_derivations: vec![words.iter().map(|w| Some(w.to_string())).collect()],
        is_prefix: false,
        original_word: String::new(),
        position: QueryPositionRange { start, end },
    }
}

/// The table the query `split the world` compiles to.
fn split_the_world() -> MatchingWords {
    MatchingWords::new(vec![
        word_term("split", 0, false),
        word_term("the", 1, false),
        word_term("world", 2, true),
    ])
}

#[test]
fn format_identity() {
    let builder = MatcherBuilder::new(split_the_world(), TokenizerBuilder::default().into_tokenizer());

    let format_options = FormatOptions { highlight: false, crop: None };

    // Text without any match.
    let text = "A quick brown fox can not jump 32 feet, right? Brr, it is cold!";
    let mut matcher = builder.build(text, None);
    // no crop and no highlight should return complete text.
    assert_eq!(&matcher.get_formatted_text(format_options), &text);

    // Text containing all matches.
    let text = "Natalie risk her future to build a world with the boy she loves. Emily Henry: The Love That Split The World.";
    let mut matcher = builder.build(text, None);
    // no crop and no highlight should return complete text.
    assert_eq!(&matcher.get_formatted_text(format_options), &text);

    // Text containing some matches.
    let text = "Natalie risk her future to build a world with the boy she loves.";
    let mut matcher = builder.build(text, None);
    // no crop and no highlight should return complete text.
    assert_eq!(&matcher.get_formatted_text(format_options), &text);
}

#[test]
fn format_highlight() {
    let builder = MatcherBuilder::new(split_the_world(), TokenizerBuilder::default().into_tokenizer());

    let format_options = FormatOptions { highlight: true, crop: None };

    // empty text.
    let text = "";
    let mut matcher = builder.build(text, None);
    assert_eq!(&matcher.get_formatted_text(format_options), "");

    // text containing only separators.
    let text = ":-)";
    let mut matcher = builder.build(text, None);
    assert_eq!(&matcher.get_formatted_text(format_options), ":-)");

    // Text without any match.
    let text = "A quick brown fox can not jump 32 feet, right? Brr, it is cold!";
    let mut matcher = builder.build(text, None);
    assert_eq!(&matcher.get_formatted_text(format_options), &text);

    // Text containing all matches.
    let text = "Natalie risk her future to build a world with the boy she loves. Emily Henry: The Love That Split The World.";
    let mut matcher = builder.build(text, None);
    assert_eq!(
        matcher.get_formatted_text(format_options),
        "Natalie risk her future to build a <em>world</em> with <em>the</em> boy she loves. Emily Henry: <em>The</em> Love That <em>Split</em> <em>The</em> <em>World</em>."
    );

    // Text containing some matches.
    let text = "Natalie risk her future to build a world with the boy she loves.";
    let mut matcher = builder.build(text, None);
    assert_eq!(
        matcher.get_formatted_text(format_options),
        "Natalie risk her future to build a <em>world</em> with <em>the</em> boy she loves."
    );
}

#[test]
fn highlight_unicode() {
    let format_options = FormatOptions { highlight: true, crop: None };

    let world = MatchingWords::new(vec![word_term("world", 0, true)]);
    let builder = MatcherBuilder::new(world, TokenizerBuilder::default().into_tokenizer());

    // Text containing prefix match.
    let text = "Ŵôřlḑôle";
    let mut matcher = builder.build(text, None);
    assert_eq!(matcher.get_formatted_text(format_options), "<em>Ŵôřlḑ</em>ôle");

    // Text containing unicode match.
    let text = "Ŵôřlḑ";
    let mut matcher = builder.build(text, None);
    assert_eq!(matcher.get_formatted_text(format_options), "<em>Ŵôřlḑ</em>");

    let westfali = MatchingWords::new(vec![word_term("westfali", 0, true)]);
    let builder = MatcherBuilder::new(westfali, TokenizerBuilder::default().into_tokenizer());

    // Text containing unicode match.
    let text = "Westfália";
    let mut matcher = builder.build(text, None);
    assert_eq!(matcher.get_formatted_text(format_options), "<em>Westfáli</em>a");
}

#[test]
fn format_crop() {
    let builder = MatcherBuilder::new(split_the_world(), TokenizerBuilder::default().into_tokenizer());

    let format_options = FormatOptions { highlight: false, crop: Some(10) };

    // empty text.
    let text = "";
    let mut matcher = builder.build(text, None);
    assert_eq!(matcher.get_formatted_text(format_options), "");

    // text containing only separators.
    let text = ":-)";
    let mut matcher = builder.build(text, None);
    assert_eq!(matcher.get_formatted_text(format_options), ":-)");

    // Text without any match.
    let text = "A quick brown fox can not jump 32 feet, right? Brr, it is cold!";
    let mut matcher = builder.build(text, None);
    assert_eq!(
        matcher.get_formatted_text(format_options),
        "A quick brown fox can not jump 32 feet, right…"
    );

    // Text without any match starting by a separator.
    let text = "(A quick brown fox can not jump 32 feet, right? Brr, it is cold!)";
    let mut matcher = builder.build(text, None);
    assert_eq!(
        matcher.get_formatted_text(format_options),
        "(A quick brown fox can not jump 32 feet, right…"
    );

    // Test phrase propagation
    let text = "Natalie risk her future. Split The World is a book written by Emily Henry. I never read it.";
    let mut matcher = builder.build(text, None);
    assert_eq!(
        matcher.get_formatted_text(format_options),
        "…Split The World is a book written by Emily Henry…"
    );

    // Text containing some matches.
    let text = "Natalie risk her future to build a world with the boy she loves.";
    let mut matcher = builder.build(text, None);
    assert_eq!(
        matcher.get_formatted_text(format_options),
        "…future to build a world with the boy she loves."
    );

    // Text containing all matches.
    let text = "Natalie risk her future to build a world with the boy she loves. Emily Henry: The Love That Split The World.";
    let mut matcher = builder.build(text, None);
    assert_eq!(
        matcher.get_formatted_text(format_options),
        "…she loves. Emily Henry: The Love That Split The World."
    );

    // Text containing a match unordered and a match ordered.
    let text = "The world split void void void void void void void void void split the world void void";
    let mut matcher = builder.build(text, None);
    assert_eq!(
        matcher.get_formatted_text(format_options),
        "…void void void void void split the world void void"
    );

    // Text containing matches with different density.
    let text = "split void the void void world void void void void void void void void void void split the world void void";
    let mut matcher = builder.build(text, None);
    assert_eq!(
        matcher.get_formatted_text(format_options),
        "…void void void void void split the world void void"
    );

    // Text containing matches with same word.
    let text = "split split split split split split void void void void void void void void void void split the world void void";
    let mut matcher = builder.build(text, None);
    assert_eq!(
        matcher.get_formatted_text(format_options),
        "…void void void void void split the world void void"
    );
}

#[test]
fn format_highlight_crop() {
    let builder = MatcherBuilder::new(split_the_world(), TokenizerBuilder::default().into_tokenizer());

    let format_options = FormatOptions { highlight: true, crop: Some(10) };

    // empty text.
    let text = "";
    let mut matcher = builder.build(text, None);
    assert_eq!(matcher.get_formatted_text(format_options), "");

    // text containing only separators.
    let text = ":-)";
    let mut matcher = builder.build(text, None);
    assert_eq!(matcher.get_formatted_text(format_options), ":-)");

    // Text without any match.
    let text = "A quick brown fox can not jump 32 feet, right? Brr, it is cold!";
    let mut matcher = builder.build(text, None);
    assert_eq!(
        matcher.get_formatted_text(format_options),
        "A quick brown fox can not jump 32 feet, right…"
    );

    // Text containing some matches.
    let text = "Natalie risk her future to build a world with the boy she loves.";
    let mut matcher = builder.build(text, None);
    assert_eq!(
        matcher.get_formatted_text(format_options),
        "…future to build a <em>world</em> with <em>the</em> boy she loves."
    );

    // Text containing all matches.
    let text = "Natalie risk her future to build a world with the boy she loves. Emily Henry: The Love That Split The World.";
    let mut matcher = builder.build(text, None);
    assert_eq!(
        matcher.get_formatted_text(format_options),
        "…she loves. Emily Henry: <em>The</em> Love That <em>Split</em> <em>The</em> <em>World</em>."
    );

    // Text containing a match unordered and a match ordered.
    let text = "The world split void void void void void void void void void split the world void void";
    let mut matcher = builder.build(text, None);
    assert_eq!(
        matcher.get_formatted_text(format_options),
        "…void void void void void <em>split</em> <em>the</em> <em>world</em> void void"
    );
}

#[test]
fn format_highlight_crop_phrase_query() {
    let text = "The groundbreaking invention had the power to split the world between those who embraced progress and those who resisted change!";

    let format_options = FormatOptions { highlight: true, crop: Some(10) };

    let table = MatchingWords::new(vec![
        phrase_term(&["groundbreaking", "invention"], 0, 1),
        phrase_term(
            &["had", "the", "power", "to", "split", "the", "world", "between", "those"],
            2,
            10,
        ),
    ]);
    let builder = MatcherBuilder::new(table, TokenizerBuilder::default().into_tokenizer());
    let mut matcher = builder.build(text, None);
    assert_eq!(
        matcher.get_formatted_text(format_options),
        "…<em>invention</em> <em>had the power to split the world between those</em>…"
    );
}

#[test]
fn smaller_crop_size() {
    let builder = MatcherBuilder::new(split_the_world(), TokenizerBuilder::default().into_tokenizer());

    let text = "void void split the world void void.";

    // set a smaller crop size
    let format_options = FormatOptions { highlight: false, crop: Some(2) };
    let mut matcher = builder.build(text, None);
    assert_eq!(matcher.get_formatted_text(format_options), "…split the…");

    // set a smaller crop size
    let format_options = FormatOptions { highlight: false, crop: Some(1) };
    let mut matcher = builder.build(text, None);
    assert_eq!(matcher.get_formatted_text(format_options), "…split…");

    // set crop size to 0
    let format_options = FormatOptions { highlight: false, crop: Some(0) };
    let mut matcher = builder.build(text, None);
    assert_eq!(matcher.get_formatted_text(format_options), "void void split the world void void.");
}

#[test]
fn partial_matches() {
    let table = MatchingWords::new(vec![
        word_term("the", 0, false),
        phrase_term(&["t", "he"], 1, 2),
        word_term("door", 3, false),
        phrase_term(&["do", "or"], 4, 5),
    ]);
    let builder = MatcherBuilder::new(table, TokenizerBuilder::default().into_tokenizer());

    let format_options = FormatOptions { highlight: true, crop: None };

    let text = "the do or die can't be he do and or isn't he";
    let mut matcher = builder.build(text, None);
    assert_eq!(
        matcher.get_formatted_text(format_options),
        "<em>the</em> <em>do or</em> die can't be he do and or isn'<em>t he</em>"
    );
}
