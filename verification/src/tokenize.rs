//! The tokenizer boundary.
//!
//! The tokenizer itself is charabia's; this module declares its types and
//! wraps the one call the matcher makes. Nothing is assumed about what comes
//! back: the caller validates the token run at run time with
//! `tokens_well_formed` before any verified code relies on it.

use vstd::prelude::*;

use crate::tokens::{SeparatorKind, Token, TokenKind};

verus! {

#[verifier::external_type_specification]
#[verifier::external_body]
pub struct ExTokenizer<'tb>(charabia::Tokenizer<'tb>);

#[verifier::external_type_specification]
#[verifier::external_body]
pub struct ExLanguage(charabia::Language);

/// Relies on charabia's `Tokenizer::tokenize_with_allow_list`: segments and
/// normalizes the text into tokens carrying byte and character offsets into
/// it. The returned run is converted to the crate's own token type and makes
/// no promise here; callers check `tokens_well_formed` before using it.
#[verifier::external_body]
pub fn tokenize_text(
    tokenizer: &charabia::Tokenizer,
    text: &str,
    locales: Option<&[charabia::Language]>,
) -> (r: Vec<Token>) {
    tokenizer.tokenize_with_allow_list(text, locales).map(|t| Token {
        lemma: t.lemma().to_string(),
        char_start: t.char_start,
        char_end: t.char_end,
        byte_start: t.byte_start,
        byte_end: t.byte_end,
        kind: match t.kind {
            charabia::TokenKind::Separator(charabia::SeparatorKind::Hard) => TokenKind::Separator(SeparatorKind::Hard),
            charabia::TokenKind::Separator(charabia::SeparatorKind::Soft) => TokenKind::Separator(SeparatorKind::Soft),
            charabia::TokenKind::StopWord => TokenKind::StopWord,
            charabia::TokenKind::Word => TokenKind::Word,
            charabia::TokenKind::Unknown => TokenKind::Word,
        },
    }).collect()
}

} // verus!
