//! The token model.
//!
//! A tokenizer splits the source text into an ordered run of tokens that tile
//! the text: each token owns the byte range `[byte_start, byte_end)` and the
//! matching character range, and consecutive tokens are adjacent. Separator
//! tokens carry the whitespace and punctuation between words; the others are
//! words (possibly flagged as stopwords). `tokens_wf` captures exactly what
//! the rest of the crate relies on, and `tokens_well_formed` decides it at
//! run time, so nothing downstream has to trust the tokenizer.

use vstd::prelude::*;
use vstd::string::StringSliceAdditionalSpecFns;
use vstd::utf8::is_char_boundary;

use crate::text::{boundary, lemma_str_bytes_valid, span_char_count, span_chars, text_byte_len};

verus! {

/// Whether a separator splits phrases (`Hard`, e.g. a full stop) or merely
/// words (`Soft`, e.g. a space).
#[derive(Clone, Copy, Debug, PartialEq, Eq, Structural)]
pub enum SeparatorKind {
    Hard,
    Soft,
}

/// Classification of a token.
#[derive(Clone, Copy, Debug, PartialEq, Eq, Structural)]
pub enum TokenKind {
    Word,
    StopWord,
    Separator(SeparatorKind),
}

/// One token of the source text: its normalized form (`lemma`), its byte and
/// character extent in the original text, and its classification.
#[derive(Clone, Debug)]
pub struct Token {
    pub lemma: String,
    pub char_start: usize,
    pub char_end: usize,
    pub byte_start: usize,
    pub byte_end: usize,
    pub kind: TokenKind,
}

impl Token {
    /// Whether this token separates words rather than being one.
    pub fn is_separator(&self) -> (r: bool)
        ensures
            r == self.kind is Separator,
    {
        match self.kind {
            TokenKind::Separator(_) => true,
            _ => false,
        }
    }

    /// Whether this token is a word the tokenizer flagged as ignorable.
    pub fn is_stopword(&self) -> (r: bool)
        ensures
            r == self.kind is StopWord,
    {
        match self.kind {
            TokenKind::StopWord => true,
            _ => false,
        }
    }
}

/// A token counted by word positions: anything that is not a separator.
pub open spec fn is_word_token(t: Token) -> bool {
    !(t.kind is Separator)
}

/// A single token's extent is well formed with respect to the text bytes:
/// nonempty, boundary-aligned, and with consistent character offsets.
pub open spec fn token_span_wf(t: Token, bytes: Seq<u8>) -> bool {
    &&& t.byte_start < t.byte_end <= bytes.len()
    &&& boundary(bytes, t.byte_start as int)
    &&& boundary(bytes, t.byte_end as int)
    &&& t.char_end == t.char_start + span_chars(bytes, t.byte_start as int, t.byte_end as int).len()
}

/// The token run tiles the whole text: it starts at offset zero, ends at the
/// text's last byte, every token is well formed, and consecutive tokens are
/// adjacent in both byte and character offsets.
pub open spec fn tokens_wf(tokens: Seq<Token>, bytes: Seq<u8>) -> bool {
    &&& tokens.len() > 0
    &&& tokens[0].byte_start == 0
    &&& tokens[0].char_start == 0
    &&& tokens[tokens.len() - 1].byte_end == bytes.len()
    &&& forall|i: int| 0 <= i < tokens.len() ==> token_span_wf(#[trigger] tokens[i], bytes)
    &&& forall|i: int|
        #![trigger tokens[i]]
        1 <= i < tokens.len() ==> tokens[i].byte_start == tokens[i - 1].byte_end
            && tokens[i].char_start == tokens[i - 1].char_end
}

/// Number of word (non-separator) tokens among `tokens[0..i]`: the word
/// position of token `i`.
#[verifier::opaque]
pub open spec fn word_index(tokens: Seq<Token>, i: int) -> nat
    decreases i,
{
    if i <= 0 {
        0
    } else {
        word_index(tokens, i - 1) + (if is_word_token(tokens[i - 1]) {
            1nat
        } else {
            0nat
        })
    }
}

/// The word position of the run's start is zero.
pub proof fn lemma_word_index_base(tokens: Seq<Token>)
    ensures
        word_index(tokens, 0) == 0,
{
    reveal(word_index);
}

/// Stepping past one token raises the word position by one exactly when that
/// token is a word.
pub proof fn lemma_word_index_step(tokens: Seq<Token>, i: int)
    requires
        0 <= i,
    ensures
        word_index(tokens, i + 1) == word_index(tokens, i) + (if is_word_token(tokens[i]) {
            1nat
        } else {
            0nat
        }),
{
    reveal(word_index);
}

/// A word position never exceeds its token position.
pub proof fn lemma_word_index_le(tokens: Seq<Token>, i: int)
    requires
        0 <= i,
    ensures
        word_index(tokens, i) <= i,
    decreases i,
{
    reveal(word_index);
    if i > 0 {
        lemma_word_index_le(tokens, i - 1);
    }
}

/// Word positions never decrease along the token run.
pub proof fn lemma_word_index_monotone(tokens: Seq<Token>, i: int, j: int)
    requires
        i <= j,
    ensures
        word_index(tokens, i) <= word_index(tokens, j),
    decreases j - i,
{
    reveal(word_index);
    if i < j {
        lemma_word_index_monotone(tokens, i, j - 1);
    }
}

/// A word token strictly advances the word position of everything after it.
pub proof fn lemma_word_index_strict(tokens: Seq<Token>, i: int, j: int)
    requires
        0 <= i < j,
        is_word_token(tokens[i]),
    ensures
        word_index(tokens, i) < word_index(tokens, j),
    decreases j - i,
{
    reveal(word_index);
    if i + 1 < j {
        lemma_word_index_strict(tokens, i, j - 1);
        lemma_word_index_monotone(tokens, j - 1, j);
    }
}

/// Token byte offsets never decrease along the run.
pub proof fn lemma_token_offsets_ordered(tokens: Seq<Token>, bytes: Seq<u8>, i: int, j: int)
    requires
        tokens_wf(tokens, bytes),
        0 <= i <= j < tokens.len(),
    ensures
        tokens[i].byte_start <= tokens[j].byte_start,
        tokens[i].byte_end <= tokens[j].byte_end,
        i < j ==> tokens[i].byte_end <= tokens[j].byte_start,
    decreases j - i,
{
    if i < j {
        lemma_token_offsets_ordered(tokens, bytes, i, j - 1);
    }
}

/// Token character offsets never decrease along the run.
pub proof fn lemma_token_char_offsets_ordered(tokens: Seq<Token>, bytes: Seq<u8>, i: int, j: int)
    requires
        tokens_wf(tokens, bytes),
        0 <= i <= j < tokens.len(),
    ensures
        tokens[i].char_start <= tokens[j].char_start,
        tokens[i].char_end <= tokens[j].char_end,
        i < j ==> tokens[i].char_end <= tokens[j].char_start,
    decreases j - i,
{
    if i < j {
        lemma_token_char_offsets_ordered(tokens, bytes, i, j - 1);
    }
}

/// Index of the first word token at or after `t`; `tokens.len()` if none.
#[verifier::opaque]
pub open spec fn next_word_token(tokens: Seq<Token>, t: int) -> int
    decreases tokens.len() - t
    when 0 <= t <= tokens.len()
{
    if t >= tokens.len() {
        tokens.len() as int
    } else if is_word_token(tokens[t]) {
        t
    } else {
        next_word_token(tokens, t + 1)
    }
}

/// Basic facts about `next_word_token`: it lands on the first word token, it
/// only skips separators, and skipping separators keeps the word position.
pub proof fn lemma_next_word_token(tokens: Seq<Token>, t: int)
    requires
        0 <= t <= tokens.len(),
    ensures
        t <= next_word_token(tokens, t) <= tokens.len(),
        next_word_token(tokens, t) < tokens.len() ==> is_word_token(
            tokens[next_word_token(tokens, t)],
        ),
        forall|k: int| t <= k < next_word_token(tokens, t) ==> !is_word_token(#[trigger] tokens[k]),
        word_index(tokens, next_word_token(tokens, t)) == word_index(tokens, t),
    decreases tokens.len() - t,
{
    reveal(next_word_token);
    reveal(word_index);
    if t < tokens.len() && !is_word_token(tokens[t]) {
        lemma_next_word_token(tokens, t + 1);
    }
}

/// Unfoldings of `next_word_token`: at the run's end it stays put, on a word
/// token it stops, and on a separator it moves on.
pub proof fn lemma_next_word_token_unfold(tokens: Seq<Token>, t: int)
    requires
        0 <= t <= tokens.len(),
    ensures
        t == tokens.len() ==> next_word_token(tokens, t) == t,
        t < tokens.len() && is_word_token(tokens[t]) ==> next_word_token(tokens, t) == t,
        t < tokens.len() && !is_word_token(tokens[t]) ==> next_word_token(tokens, t)
            == next_word_token(tokens, t + 1),
{
    reveal(next_word_token);
}

/// Decide `token_span_wf` at run time for a single token.
fn token_span_ok(t: &Token, text: &str, n: usize) -> (r: bool)
    requires
        n == text.spec_bytes().len(),
    ensures
        r == token_span_wf(*t, text.spec_bytes()),
{
    proof {
        reveal(crate::text::span_chars);
        reveal(boundary);
        lemma_str_bytes_valid(text);
    }
    if !(t.byte_start < t.byte_end && t.byte_end <= n) {
        return false;
    }
    if !text.is_char_boundary(t.byte_start) || !text.is_char_boundary(t.byte_end) {
        return false;
    }
    let chars = span_char_count(text, t.byte_start, t.byte_end);
    if chars > usize::MAX - t.char_start {
        return false;
    }
    t.char_end == t.char_start + chars
}

/// Decide `tokens_wf` at run time, so callers can rely on it without trusting
/// where the tokens came from.
#[verifier::rlimit(100)]
pub fn tokens_well_formed(tokens: &Vec<Token>, text: &str) -> (r: bool)
    ensures
        r == tokens_wf(tokens@, text.spec_bytes()),
{
    proof {
        lemma_str_bytes_valid(text);
    }
    if tokens.len() == 0 {
        return false;
    }
    if tokens[0].byte_start != 0 || tokens[0].char_start != 0 {
        return false;
    }
    let n = text_byte_len(text);
    if tokens[tokens.len() - 1].byte_end != n {
        return false;
    }
    let mut i: usize = 0;
    while i < tokens.len()
        invariant
            i <= tokens@.len(),
            tokens@.len() > 0,
            n == text.spec_bytes().len(),
            tokens@[0].byte_start == 0,
            tokens@[0].char_start == 0,
            tokens@[tokens@.len() - 1].byte_end == text.spec_bytes().len(),
            forall|k: int| 0 <= k < i ==> token_span_wf(#[trigger] tokens@[k], text.spec_bytes()),
            forall|k: int|
                #![trigger tokens@[k]]
                1 <= k < i ==> tokens@[k].byte_start == tokens@[k - 1].byte_end
                    && tokens@[k].char_start == tokens@[k - 1].char_end,
        decreases tokens@.len() - i,
    {
        let t = &tokens[i];
        if !token_span_ok(t, text, n) {
            return false;
        }
        if i >= 1 {
            let prev = &tokens[i - 1];
            if t.byte_start != prev.byte_end || t.char_start != prev.char_end {
                return false;
            }
        }
        i += 1;
    }
    true
}

} // verus!
