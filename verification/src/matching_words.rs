//! The matching-term table and the match finder.
//!
//! A query compiles to a table of matching terms: phrases (ordered slots of
//! required words and stopword placeholders) and single words (exact or
//! prefix), each tagged with the range of user-query positions it came from.
//! The finder walks the token run, trying phrases first and single words
//! second, and emits a list of non-overlapping `Match`es in token order.

use vstd::prelude::*;
use vstd::string::StrSliceExecFns;
use vstd::string::StringSliceAdditionalSpecFns;
use vstd::utf8::encode_utf8;

use crate::text::{boundary, char_prefix_end, lemma_str_bytes_valid, span_chars};
use crate::tokens::{
    is_word_token, lemma_next_word_token, lemma_next_word_token_unfold,
    lemma_token_char_offsets_ordered, lemma_token_offsets_ordered, lemma_word_index_base,
    lemma_word_index_step, lemma_word_index_strict, next_word_token, tokens_wf, word_index, Token,
};

verus! {

/// The range `[start, end]` of user-query word positions a term covers.
#[derive(Clone, Copy, Debug, PartialEq, Eq, Structural)]
pub struct QueryPositionRange {
    pub start: u16,
    pub end: u16,
}

/// A span of the token run that matches one term of the query.
///
/// Token and word positions are inclusive ranges; `byte_len` is the number of
/// text bytes covered starting at the first token's `byte_start`, and
/// `char_count` the same in characters.
#[derive(Clone, Copy, Debug)]
pub struct Match {
    pub first_token: usize,
    pub last_token: usize,
    pub first_word: usize,
    pub last_word: usize,
    pub byte_len: usize,
    pub char_count: usize,
    pub position: QueryPositionRange,
}

/// Byte offset where a match starts in the text.
pub open spec fn match_byte_start(m: Match, tokens: Seq<Token>) -> int {
    tokens[m.first_token as int].byte_start as int
}

/// Byte offset just past a match in the text.
pub open spec fn match_byte_end(m: Match, tokens: Seq<Token>) -> int {
    match_byte_start(m, tokens) + m.byte_len
}

/// A match is well formed over a token run: its token range is in bounds and
/// starts and ends on word tokens, its word positions are the word indexes of
/// those tokens, and its byte extent is nonempty, inside its token span, and
/// ends on a character boundary.
pub open spec fn match_wf(m: Match, tokens: Seq<Token>, bytes: Seq<u8>) -> bool {
    &&& m.first_token <= m.last_token < tokens.len()
    &&& is_word_token(tokens[m.first_token as int])
    &&& is_word_token(tokens[m.last_token as int])
    &&& m.first_word == word_index(tokens, m.first_token as int)
    &&& m.last_word == word_index(tokens, m.last_token as int)
    &&& 0 < m.byte_len
    &&& match_byte_end(m, tokens) <= tokens[m.last_token as int].byte_end
    &&& boundary(bytes, match_byte_end(m, tokens))
}

/// A well-formed match list: every match is well formed and the token ranges
/// are strictly ordered, hence pairwise disjoint.
pub open spec fn matches_wf(ms: Seq<Match>, tokens: Seq<Token>, bytes: Seq<u8>) -> bool {
    &&& forall|i: int| 0 <= i < ms.len() ==> match_wf(#[trigger] ms[i], tokens, bytes)
    &&& forall|i: int|
        #![trigger ms[i]]
        1 <= i < ms.len() ==> ms[i - 1].last_token < ms[i].first_token
}

/// In a well-formed match list, any two matches have disjoint token ranges,
/// word positions are ordered, and byte extents are ordered.
#[verifier::rlimit(100)]
pub proof fn lemma_matches_ordered(ms: Seq<Match>, tokens: Seq<Token>, bytes: Seq<u8>, i: int, j: int)
    requires
        matches_wf(ms, tokens, bytes),
        tokens_wf(tokens, bytes),
        0 <= i < j < ms.len(),
    ensures
        ms[i].last_token < ms[j].first_token,
        ms[i].last_word < ms[j].first_word,
        match_byte_end(ms[i], tokens) <= match_byte_start(ms[j], tokens),
    decreases j - i,
{
    if i + 1 < j {
        lemma_matches_ordered(ms, tokens, bytes, i, j - 1);
        lemma_matches_ordered(ms, tokens, bytes, j - 1, j);
        lemma_word_index_strict(tokens, ms[j - 1].first_token as int, ms[j].first_token as int);
        lemma_token_offsets_ordered(
            tokens,
            bytes,
            ms[i].last_token as int,
            ms[j].first_token as int,
        );
    } else {
        lemma_word_index_strict(tokens, ms[i].last_token as int, ms[j].first_token as int);
        lemma_token_offsets_ordered(
            tokens,
            bytes,
            ms[i].last_token as int,
            ms[j].first_token as int,
        );
    }
}

/// Law: any two matches of a well-formed match list occupy disjoint token
/// ranges.
pub proof fn lemma_matches_disjoint(
    ms: Seq<Match>,
    tokens: Seq<Token>,
    bytes: Seq<u8>,
    i: int,
    j: int,
)
    requires
        matches_wf(ms, tokens, bytes),
        tokens_wf(tokens, bytes),
        0 <= i < ms.len(),
        0 <= j < ms.len(),
        i != j,
    ensures
        ms[i].last_token < ms[j].first_token || ms[j].last_token < ms[i].first_token,
{
    if i < j {
        lemma_matches_ordered(ms, tokens, bytes, i, j);
    } else {
        lemma_matches_ordered(ms, tokens, bytes, j, i);
    }
}

/// A phrase to match: each slot is either a required word or a stopword
/// placeholder (`None`), with the query positions the phrase came from.
#[derive(Debug)]
pub struct LocatedMatchingPhrase {
    pub words: Vec<Option<String>>,
    pub position: QueryPositionRange,
}

/// A set of single words to match, with their query positions, whether they
/// are prefixes, and the character count of the original query word (which
/// bounds what a prefix match highlights).
#[derive(Debug)]
pub struct LocatedMatchingWords {
    pub words: Vec<String>,
    pub position: QueryPositionRange,
    pub is_prefix: bool,
    pub original_char_count: usize,
}

/// One located term of the user's query, resolved to its derivations: the
/// words and phrases that count as matching it.
#[derive(Debug)]
pub struct LocatedQueryTerm {
    pub word_derivations: Vec<String>,
    pub phrase_derivations: Vec<Vec<Option<String>>>,
    pub is_prefix: bool,
    pub original_word: String,
    pub position: QueryPositionRange,
}

/// Width of the query-position range of a word entry.
pub open spec fn entry_width(e: LocatedMatchingWords) -> int {
    e.position.end - e.position.start
}

/// Ordering of the word list: non-prefix entries come before prefix entries,
/// ties broken by descending query-range width.
pub open spec fn word_entry_le(a: LocatedMatchingWords, b: LocatedMatchingWords) -> bool {
    ||| (!a.is_prefix && b.is_prefix)
    ||| (a.is_prefix == b.is_prefix && entry_width(a) >= entry_width(b))
}

/// The phrase entries that a term list compiles to, in order.
pub open spec fn phrase_entries_of(terms: Seq<LocatedQueryTerm>) -> Seq<LocatedMatchingPhrase>
    decreases terms.len(),
{
    if terms.len() == 0 {
        Seq::empty()
    } else {
        phrase_entries_of(terms.drop_last()) + terms.last().phrase_derivations@.map_values(
            |p: Vec<Option<String>>|
                LocatedMatchingPhrase { words: p, position: terms.last().position },
        )
    }
}

/// The word entries that a term list compiles to, before sorting.
pub open spec fn word_entries_of(terms: Seq<LocatedQueryTerm>) -> Seq<LocatedMatchingWords> {
    terms.map_values(
        |t: LocatedQueryTerm|
            LocatedMatchingWords {
                words: t.word_derivations,
                position: t.position,
                is_prefix: t.is_prefix,
                original_char_count: t.original_word@.len() as usize,
            },
    )
}

/// The compiled matching-term table of a query.
#[derive(Debug)]
pub struct MatchingWords {
    pub located_matching_phrases: Vec<LocatedMatchingPhrase>,
    pub located_matching_words: Vec<LocatedMatchingWords>,
}

impl Default for MatchingWords {
    /// An empty table: nothing matches.
    fn default() -> (r: Self)
        ensures
            r.located_matching_phrases@.len() == 0,
            r.located_matching_words@.len() == 0,
    {
        MatchingWords { located_matching_phrases: Vec::new(), located_matching_words: Vec::new() }
    }
}

/// A vector with its elements in reverse order.
fn reversed<T>(v: Vec<T>) -> (r: Vec<T>)
    ensures
        r@ == v@.reverse(),
{
    let mut input = v;
    let mut r: Vec<T> = Vec::new();
    let ghost orig = input@;
    while input.len() > 0
        invariant
            orig.len() == input@.len() + r@.len(),
            input@ == orig.take(input@.len() as int),
            forall|k: int| 0 <= k < r@.len() ==> r@[k] == orig[orig.len() - 1 - k],
        decreases input@.len(),
    {
        let t = input.pop().unwrap();
        r.push(t);
    }
    proof {
        assert(r@ =~= orig.reverse());
    }
    r
}

impl MatchingWords {
    /// Compile a list of located query terms into the matching-term table:
    /// phrases in term order, and the word entries sorted with non-prefix
    /// entries first, ties broken by descending query-range width.
    pub fn new(located_terms: Vec<LocatedQueryTerm>) -> (r: Self)
        ensures
            r.located_matching_phrases@ == phrase_entries_of(located_terms@),
            r.located_matching_words@.to_multiset() == word_entries_of(
                located_terms@,
            ).to_multiset(),
            forall|i: int, j: int|
                0 <= i < j < r.located_matching_words@.len() ==> word_entry_le(
                    #[trigger] r.located_matching_words@[i],
                    #[trigger] r.located_matching_words@[j],
                ),
    {
        broadcast use vstd::seq_lib::group_to_multiset_ensures;

        let ghost terms = located_terms@;
        let mut phrases: Vec<LocatedMatchingPhrase> = Vec::new();
        let mut words: Vec<LocatedMatchingWords> = Vec::new();
        let mut rest = reversed(located_terms);
        proof {
            assert(rest@ =~= terms.skip(terms.len() - rest@.len() as int).reverse());
            assert(phrases@ =~= phrase_entries_of(terms.take(0)));
            assert(word_entries_of(terms.take(0)).to_multiset() =~= words@.to_multiset());
        }
        while rest.len() > 0
            invariant
                rest@.len() <= terms.len(),
                rest@ == terms.skip(terms.len() - rest@.len() as int).reverse(),
                phrases@ == phrase_entries_of(terms.take(terms.len() - rest@.len() as int)),
                words@.to_multiset() == word_entries_of(
                    terms.take(terms.len() - rest@.len() as int),
                ).to_multiset(),
                forall|i: int, j: int|
                    0 <= i < j < words@.len() ==> word_entry_le(
                        #[trigger] words@[i],
                        #[trigger] words@[j],
                    ),
            decreases rest@.len(),
        {
            let ghost k = terms.len() - rest@.len() as int;
            let ghost rest0 = rest@;
            let term = rest.pop().unwrap();
            proof {
                assert(term == rest0[rest0.len() - 1]);
                assert(term == terms[k]);
                assert(rest@ =~= terms.skip(k + 1).reverse());
            }
            let ghost derivs = term.phrase_derivations@;
            let mut phrase_rest = reversed(term.phrase_derivations);
            proof {
                assert(phrase_rest@ =~= derivs.skip(derivs.len() - phrase_rest@.len() as int).reverse());
            }
            while phrase_rest.len() > 0
                invariant
                    phrase_rest@.len() <= derivs.len(),
                    phrase_rest@ == derivs.skip(derivs.len() - phrase_rest@.len() as int).reverse(),
                    phrases@ == phrase_entries_of(terms.take(k)) + derivs.take(
                        derivs.len() - phrase_rest@.len() as int,
                    ).map_values(
                        |p: Vec<Option<String>>|
                            LocatedMatchingPhrase { words: p, position: term.position },
                    ),
                decreases phrase_rest@.len(),
            {
                let ghost d = derivs.len() - phrase_rest@.len() as int;
                let ghost prest0 = phrase_rest@;
                let ghost pre = phrases@;
                let p = phrase_rest.pop().unwrap();
                proof {
                    assert(p == prest0[prest0.len() - 1]);
                    assert(p == derivs[d]);
                    assert(phrase_rest@ =~= derivs.skip(d + 1).reverse());
                }
                phrases.push(LocatedMatchingPhrase { words: p, position: term.position });
                proof {
                    let f = |q: Vec<Option<String>>|
                        LocatedMatchingPhrase { words: q, position: term.position };
                    assert(derivs.take(d + 1).map_values(f) =~= derivs.take(d).map_values(f).push(
                        f(derivs[d]),
                    ));
                    assert(phrases@ =~= phrase_entries_of(terms.take(k)) + derivs.take(d + 1)
                        .map_values(f));
                }
            }
            let occ = term.original_word.as_str().unicode_len();
            let ghost pre_words = words@;
            let entry = LocatedMatchingWords {
                words: term.word_derivations,
                position: term.position,
                is_prefix: term.is_prefix,
                original_char_count: occ,
            };
            insert_word_entry(&mut words, entry);
            proof {
                let f = |q: Vec<Option<String>>|
                    LocatedMatchingPhrase { words: q, position: term.position };
                assert(derivs.take(derivs.len() as int) =~= derivs);
                assert(terms.take(k + 1).drop_last() =~= terms.take(k));
                assert(terms.take(k + 1).last() == term);
                assert(phrases@ =~= phrase_entries_of(terms.take(k + 1)));
                // word entries of the longer prefix are the old ones plus `entry`
                assert(occ as nat == term.original_word@.len());
                assert(term.original_word@.len() as usize == occ);
                assert(word_entries_of(terms.take(k + 1)) =~= word_entries_of(terms.take(k)).push(
                    entry,
                ));
                vstd::seq_lib::to_multiset_build(word_entries_of(terms.take(k)), entry);
                assert(words@.to_multiset() == word_entries_of(terms.take(k + 1)).to_multiset());
            }
        }
        proof {
            assert(terms.take(terms.len() as int) =~= terms);
        }
        MatchingWords { located_matching_phrases: phrases, located_matching_words: words }
    }
}

/// Whether `a` comes weakly before `b` in the word list's order.
fn word_entry_le_exec(a: &LocatedMatchingWords, b: &LocatedMatchingWords) -> (r: bool)
    ensures
        r == word_entry_le(*a, *b),
{
    let a_width = a.position.end as i32 - a.position.start as i32;
    let b_width = b.position.end as i32 - b.position.start as i32;
    (!a.is_prefix && b.is_prefix) || (a.is_prefix == b.is_prefix && a_width >= b_width)
}

/// Insert a word entry into a list kept sorted by `word_entry_le`.
fn insert_word_entry(words: &mut Vec<LocatedMatchingWords>, entry: LocatedMatchingWords)
    requires
        forall|i: int, j: int|
            0 <= i < j < old(words)@.len() ==> word_entry_le(
                #[trigger] old(words)@[i],
                #[trigger] old(words)@[j],
            ),
    ensures
        final(words)@.to_multiset() == old(words)@.to_multiset().insert(entry),
        forall|i: int, j: int|
            0 <= i < j < final(words)@.len() ==> word_entry_le(
                #[trigger] final(words)@[i],
                #[trigger] final(words)@[j],
            ),
{
    broadcast use vstd::seq_lib::to_multiset_insert;

    // find the first position whose entry must come after `entry`
    let mut pos: usize = 0;
    while pos < words.len() && word_entry_le_exec(&words[pos], &entry)
        invariant
            pos <= words@.len(),
            words == old(words),
            forall|i: int| 0 <= i < pos ==> word_entry_le(#[trigger] words@[i], entry),
        decreases words@.len() - pos,
    {
        pos += 1;
    }
    proof {
        // entries at or after `pos` come weakly after `entry`: the one at
        // `pos` by the loop exit condition and totality of the order, the
        // rest by transitivity through it
        assert forall|i: int| pos <= i < words@.len() implies word_entry_le(
            entry,
            #[trigger] words@[i],
        ) by {
            assert(!word_entry_le(words@[pos as int], entry));
            if i > pos {
                assert(word_entry_le(words@[pos as int], words@[i]));
            }
        }
    }
    let ghost pre = words@;
    words.insert(pos, entry);
    proof {
        assert(words@.to_multiset() == pre.to_multiset().insert(entry));
        assert forall|i: int, j: int| 0 <= i < j < words@.len() implies word_entry_le(
            #[trigger] words@[i],
            #[trigger] words@[j],
        ) by {
            let a = if i < pos { pre[i] } else if i == pos { entry } else { pre[i - 1] };
            assert(words@[i] == a);
            let b = if j < pos { pre[j] } else if j == pos { entry } else { pre[j - 1] };
            assert(words@[j] == b);
        }
    }
}


/// `p` is a prefix of `s`, character by character.
pub open spec fn starts_with_chars(s: Seq<char>, p: Seq<char>) -> bool {
    p.len() <= s.len() && s.take(p.len() as int) == p
}

/// Whether `s` starts with `prefix`, by characters.
fn str_starts_with(s: &str, prefix: &str) -> (r: bool)
    ensures
        r == starts_with_chars(s@, prefix@),
{
    let n = prefix.unicode_len();
    if s.unicode_len() < n {
        return false;
    }
    let mut i: usize = 0;
    while i < n
        invariant
            i <= n,
            n == prefix@.len(),
            n <= s@.len(),
            forall|k: int| 0 <= k < i ==> s@[k] == prefix@[k],
        decreases n - i,
    {
        if s.get_char(i) != prefix.get_char(i) {
            proof {
                assert(s@.take(n as int)[i as int] != prefix@[i as int]);
            }
            return false;
        }
        i += 1;
    }
    proof {
        assert(s@.take(n as int) =~= prefix@);
    }
    true
}

/// A position in the token run, with the word position of its token.
#[derive(Clone, Copy, Debug)]
pub struct Cursor {
    pub token: usize,
    pub word: usize,
}

/// The cursor's word position is consistent with its token position.
pub open spec fn cursor_wf(c: Cursor, tokens: Seq<Token>) -> bool {
    &&& c.token <= tokens.len()
    &&& c.word == word_index(tokens, c.token as int)
}

/// Whether a token satisfies one phrase slot: a required word must equal the
/// token's lemma, a stopword placeholder accepts any stopword token.
pub open spec fn slot_matches(t: Token, slot: Option<String>) -> bool {
    match slot {
        Some(w) => t.lemma@ == w@,
        None => t.kind is StopWord,
    }
}

/// Index of the last token of a phrase match of `slots[j..]` against the word
/// tokens from `t` on; `None` if the phrase does not match there.
#[verifier::opaque]
pub open spec fn phrase_match_end(
    tokens: Seq<Token>,
    slots: Seq<Option<String>>,
    j: int,
    t: int,
) -> Option<int>
    decreases slots.len() - j,
{
    if j < 0 || j >= slots.len() || t < 0 || t > tokens.len() {
        None
    } else {
        let w = next_word_token(tokens, t);
        if w >= tokens.len() {
            None
        } else if !slot_matches(tokens[w], slots[j]) {
            None
        } else if j == slots.len() - 1 {
            Some(w)
        } else {
            phrase_match_end(tokens, slots, j + 1, w + 1)
        }
    }
}

/// One unfolding step of `phrase_match_end`.
pub proof fn lemma_phrase_match_end_unfold(
    tokens: Seq<Token>,
    slots: Seq<Option<String>>,
    j: int,
    t: int,
)
    requires
        0 <= j < slots.len(),
        0 <= t <= tokens.len(),
    ensures
        phrase_match_end(tokens, slots, j, t) == {
            let w = next_word_token(tokens, t);
            if w >= tokens.len() {
                None
            } else if !slot_matches(tokens[w], slots[j]) {
                None
            } else if j == slots.len() - 1 {
                Some(w)
            } else {
                phrase_match_end(tokens, slots, j + 1, w + 1)
            }
        },
{
    reveal(phrase_match_end);
}

/// The match that one phrase produces at the cursor position `t`, if any.
#[verifier::opaque]
pub open spec fn phrase_result(
    phrase: LocatedMatchingPhrase,
    tokens: Seq<Token>,
    t: int,
) -> Option<Match> {
    let slots = phrase.words@;
    if slots.len() == 0 {
        None
    } else {
        match phrase_match_end(tokens, slots, 0, t) {
            None => None,
            Some(e) => {
                let f = next_word_token(tokens, t);
                Some(
                    Match {
                        first_token: f as usize,
                        last_token: e as usize,
                        first_word: word_index(tokens, f) as usize,
                        last_word: word_index(tokens, e) as usize,
                        byte_len: (tokens[e].byte_end - tokens[f].byte_start) as usize,
                        char_count: (tokens[e].char_end - tokens[f].char_start) as usize,
                        position: phrase.position,
                    },
                )
            },
        }
    }
}

/// The characters of the text that a token covers.
pub open spec fn token_chars(t: Token, bytes: Seq<u8>) -> Seq<char> {
    span_chars(bytes, t.byte_start as int, t.byte_end as int)
}

/// The match that one word entry's word produces on the token at `tok_idx`
/// (with word position `word_idx`), if any.
///
/// A prefix entry matches when the token's lemma starts with the word; it
/// highlights the original query word's character count (clamped to the
/// token), and is skipped when the word has fewer characters than that count.
/// Otherwise the entry matches exactly when the lemma equals the word.
pub open spec fn word_match_result(
    entry: LocatedMatchingWords,
    w: String,
    tok: Token,
    tok_idx: usize,
    word_idx: usize,
    bytes: Seq<u8>,
) -> Option<Match> {
    if entry.is_prefix && starts_with_chars(tok.lemma@, w@) {
        if 1 <= entry.original_char_count <= w@.len() {
            let k = if entry.original_char_count <= token_chars(tok, bytes).len() {
                entry.original_char_count as int
            } else {
                token_chars(tok, bytes).len() as int
            };
            Some(
                Match {
                    first_token: tok_idx,
                    last_token: tok_idx,
                    first_word: word_idx,
                    last_word: word_idx,
                    byte_len: encode_utf8(token_chars(tok, bytes).take(k)).len() as usize,
                    char_count: k as usize,
                    position: entry.position,
                },
            )
        } else {
            None
        }
    } else if tok.lemma@ == w@ {
        Some(
            Match {
                first_token: tok_idx,
                last_token: tok_idx,
                first_word: word_idx,
                last_word: word_idx,
                byte_len: (tok.byte_end - tok.byte_start) as usize,
                char_count: (tok.char_end - tok.char_start) as usize,
                position: entry.position,
            },
        )
    } else {
        None
    }
}

/// The match that the pair (entry `ei`, word `wi`) of the table produces.
pub open spec fn word_pair_result(
    mw: MatchingWords,
    ei: int,
    wi: int,
    tok: Token,
    tok_idx: usize,
    word_idx: usize,
    bytes: Seq<u8>,
) -> Option<Match> {
    word_match_result(
        mw.located_matching_words@[ei],
        mw.located_matching_words@[ei].words@[wi],
        tok,
        tok_idx,
        word_idx,
        bytes,
    )
}

/// `(e2, w2)` comes before `(e1, w1)` in the table's trial order.
pub open spec fn pair_before(e2: int, w2: int, e1: int, w1: int) -> bool {
    e2 < e1 || (e2 == e1 && w2 < w1)
}

/// The first phrase of the table, at index `p` or later, that matches at
/// cursor position `t`; `None` when none does.
#[verifier::opaque]
pub open spec fn first_phrase_result(
    mw: MatchingWords,
    tokens: Seq<Token>,
    t: int,
    p: int,
) -> Option<Match>
    decreases mw.located_matching_phrases@.len() - p,
{
    if p < 0 || p >= mw.located_matching_phrases@.len() {
        None
    } else {
        match phrase_result(mw.located_matching_phrases@[p], tokens, t) {
            Some(m) => Some(m),
            None => first_phrase_result(mw, tokens, t, p + 1),
        }
    }
}

/// One unfolding step of `first_phrase_result`.
pub proof fn lemma_first_phrase_result_unfold(mw: MatchingWords, tokens: Seq<Token>, t: int, p: int)
    ensures
        first_phrase_result(mw, tokens, t, p) == (if p < 0 || p
            >= mw.located_matching_phrases@.len() {
            None
        } else {
            match phrase_result(mw.located_matching_phrases@[p], tokens, t) {
                Some(m) => Some(m),
                None => first_phrase_result(mw, tokens, t, p + 1),
            }
        }),
{
    reveal(first_phrase_result);
}

/// The first (entry, word) pair of the table, in trial order at `(ei, wi)`
/// or later, whose word matches the token; `None` when none does.
#[verifier::opaque]
pub open spec fn first_word_result(
    mw: MatchingWords,
    tok: Token,
    tok_idx: usize,
    word_idx: usize,
    bytes: Seq<u8>,
    ei: int,
    wi: int,
) -> Option<Match>
    decreases mw.located_matching_words@.len() - ei, mw.located_matching_words@[ei].words@.len() - wi,
{
    if ei < 0 || wi < 0 || ei >= mw.located_matching_words@.len() {
        None
    } else if wi >= mw.located_matching_words@[ei].words@.len() {
        first_word_result(mw, tok, tok_idx, word_idx, bytes, ei + 1, 0)
    } else {
        match word_pair_result(mw, ei, wi, tok, tok_idx, word_idx, bytes) {
            Some(m) => Some(m),
            None => first_word_result(mw, tok, tok_idx, word_idx, bytes, ei, wi + 1),
        }
    }
}

/// One unfolding step of `first_word_result`.
pub proof fn lemma_first_word_result_unfold(
    mw: MatchingWords,
    tok: Token,
    tok_idx: usize,
    word_idx: usize,
    bytes: Seq<u8>,
    ei: int,
    wi: int,
)
    ensures
        first_word_result(mw, tok, tok_idx, word_idx, bytes, ei, wi) == (if ei < 0 || wi < 0 || ei
            >= mw.located_matching_words@.len() {
            None
        } else if wi >= mw.located_matching_words@[ei].words@.len() {
            first_word_result(mw, tok, tok_idx, word_idx, bytes, ei + 1, 0)
        } else {
            match word_pair_result(mw, ei, wi, tok, tok_idx, word_idx, bytes) {
                Some(m) => Some(m),
                None => first_word_result(mw, tok, tok_idx, word_idx, bytes, ei, wi + 1),
            }
        }),
{
    reveal(first_word_result);
}

/// The matches the finder emits, scanning from token position `t`: at each
/// cursor the first matching phrase of the table is taken and the scan
/// continues past it; otherwise the next word token is tried against the
/// word entries in table order, and the scan continues past that token.
#[verifier::opaque]
pub open spec fn match_scan(mw: MatchingWords, tokens: Seq<Token>, bytes: Seq<u8>, t: int) -> Seq<
    Match,
>
    decreases tokens.len() - t,
{
    if t < 0 || t >= tokens.len() {
        Seq::empty()
    } else {
        match first_phrase_result(mw, tokens, t, 0) {
            Some(m) => {
                if t <= m.last_token < tokens.len() {
                    seq![m] + match_scan(mw, tokens, bytes, m.last_token + 1)
                } else {
                    seq![m]
                }
            },
            None => {
                let w = next_word_token(tokens, t);
                if !(t <= w < tokens.len()) {
                    Seq::empty()
                } else {
                    match first_word_result(
                        mw,
                        tokens[w],
                        w as usize,
                        word_index(tokens, w) as usize,
                        bytes,
                        0,
                        0,
                    ) {
                        Some(m) => seq![m] + match_scan(mw, tokens, bytes, w + 1),
                        None => match_scan(mw, tokens, bytes, w + 1),
                    }
                }
            },
        }
    }
}

/// One unfolding step of `match_scan`.
pub proof fn lemma_match_scan_unfold(mw: MatchingWords, tokens: Seq<Token>, bytes: Seq<u8>, t: int)
    ensures
        match_scan(mw, tokens, bytes, t) == (if t < 0 || t >= tokens.len() {
            Seq::<Match>::empty()
        } else {
            match first_phrase_result(mw, tokens, t, 0) {
                Some(m) => {
                    if t <= m.last_token < tokens.len() {
                        seq![m] + match_scan(mw, tokens, bytes, m.last_token + 1)
                    } else {
                        seq![m]
                    }
                },
                None => {
                    let w = next_word_token(tokens, t);
                    if !(t <= w < tokens.len()) {
                        Seq::<Match>::empty()
                    } else {
                        match first_word_result(
                            mw,
                            tokens[w],
                            w as usize,
                            word_index(tokens, w) as usize,
                            bytes,
                            0,
                            0,
                        ) {
                            Some(m) => seq![m] + match_scan(mw, tokens, bytes, w + 1),
                            None => match_scan(mw, tokens, bytes, w + 1),
                        }
                    }
                },
            }
        }),
{
    reveal(match_scan);
}


impl MatchingWords {
    /// Try to match one phrase of the table against the word tokens starting
    /// at the cursor. On success the cursor moves past the matched span; on
    /// failure it is unchanged and no phrase of the table matches there.
    #[verifier::rlimit(100)]
    /// Try to match a phrase of the table at the cursor, in table order. The
    /// result is exactly the first phrase match of the table there; on
    /// success the cursor moves past the matched span, else it is unchanged.
    fn try_get_phrase_match(&self, text: &str, tokens: &Vec<Token>, cur: &mut Cursor) -> (r: Option<
        Match,
    >)
        requires
            tokens_wf(tokens@, text.spec_bytes()),
            cursor_wf(*old(cur), tokens@),
        ensures
            cursor_wf(*final(cur), tokens@),
            r == first_phrase_result(*self, tokens@, old(cur).token as int, 0),
            match r {
                Some(m) => {
                    &&& match_wf(m, tokens@, text.spec_bytes())
                    &&& old(cur).token <= m.first_token
                    &&& final(cur).token == m.last_token + 1
                },
                None => *final(cur) == *old(cur),
            },
    {
        let ghost t0 = old(cur).token as int;
        let mut p: usize = 0;
        while p < self.located_matching_phrases.len()
            invariant
                tokens_wf(tokens@, text.spec_bytes()),
                cursor_wf(*cur, tokens@),
                *cur == *old(cur),
                t0 == old(cur).token as int,
                p <= self.located_matching_phrases@.len(),
                first_phrase_result(*self, tokens@, t0, 0) == first_phrase_result(
                    *self,
                    tokens@,
                    t0,
                    p as int,
                ),
            decreases self.located_matching_phrases@.len() - p,
        {
            proof {
                lemma_first_phrase_result_unfold(*self, tokens@, t0, p as int);
            }
            let phrase = &self.located_matching_phrases[p];
            if let Some((m, after)) = match_phrase_at(phrase, text, tokens, *cur) {
                *cur = after;
                return Some(m);
            }
            p += 1;
        }
        proof {
            lemma_first_phrase_result_unfold(
                *self,
                tokens@,
                t0,
                self.located_matching_phrases@.len() as int,
            );
        }
        None
    }
}

/// Advance to the next word token at or after position `t` (word position
/// `word`), returning its token and word positions.
fn advance_to_word(tokens: &Vec<Token>, t: usize, word: usize, Ghost(bytes): Ghost<Seq<u8>>) -> (r: (
    usize,
    usize,
))
    requires
        tokens_wf(tokens@, bytes),
        t <= tokens@.len(),
        word == word_index(tokens@, t as int),
    ensures
        r.0 as int == next_word_token(tokens@, t as int),
        t <= r.0 <= tokens@.len(),
        r.1 == word_index(tokens@, r.0 as int),
        r.1 == word_index(tokens@, t as int),
        r.0 < tokens@.len() ==> is_word_token(tokens@[r.0 as int]),
{
    let mut i = t;
    while i < tokens.len() && tokens[i].is_separator()
        invariant
            tokens_wf(tokens@, bytes),
            t <= i <= tokens@.len(),
            word == word_index(tokens@, i as int),
            next_word_token(tokens@, i as int) == next_word_token(tokens@, t as int),
        decreases tokens@.len() - i,
    {
        proof {
            lemma_word_index_step(tokens@, i as int);
            lemma_next_word_token_unfold(tokens@, i as int);
        }
        i += 1;
    }
    proof {
        lemma_next_word_token_unfold(tokens@, i as int);
        lemma_next_word_token(tokens@, t as int);
    }
    (i, word)
}

/// Assemble the `Match` for a phrase whose last slot just matched the word
/// token at `t`, and the cursor just past it.
#[verifier::rlimit(100)]
fn build_phrase_match(
    phrase: &LocatedMatchingPhrase,
    text: &str,
    tokens: &Vec<Token>,
    start: Cursor,
    first_token: usize,
    first_word: usize,
    t: usize,
    word: usize,
) -> (r: (Match, Cursor))
    requires
        tokens_wf(tokens@, text.spec_bytes()),
        phrase.words@.len() > 0,
        start.token <= first_token <= t < tokens@.len(),
        is_word_token(tokens@[first_token as int]),
        is_word_token(tokens@[t as int]),
        word == word_index(tokens@, t as int),
        first_word == word_index(tokens@, first_token as int),
        first_token == next_word_token(tokens@, start.token as int),
        phrase_match_end(tokens@, phrase.words@, 0, start.token as int) == Some(t as int),
    ensures
        phrase_result(*phrase, tokens@, start.token as int) == Some(r.0),
        match_wf(r.0, tokens@, text.spec_bytes()),
        start.token <= r.0.first_token,
        r.1.token == r.0.last_token + 1,
        cursor_wf(r.1, tokens@),
{
    let ghost bytes = text.spec_bytes();
    proof {
        reveal(phrase_result);
        lemma_token_offsets_ordered(tokens@, bytes, first_token as int, t as int);
        lemma_token_char_offsets_ordered(tokens@, bytes, first_token as int, t as int);
        lemma_str_bytes_valid(text);
        crate::tokens::lemma_word_index_le(tokens@, t as int);
        lemma_word_index_step(tokens@, t as int);
    }
    let m = Match {
        first_token,
        last_token: t,
        first_word,
        last_word: word,
        byte_len: tokens[t].byte_end - tokens[first_token].byte_start,
        char_count: tokens[t].char_end - tokens[first_token].char_start,
        position: phrase.position,
    };
    let n_tokens = tokens.len();
    proof {
        assert(t < n_tokens);
    }
    let after = Cursor { token: t + 1, word: word + 1 };
    (m, after)
}

/// Match one phrase at the cursor: walk its slots against successive word
/// tokens. Returns the match and the cursor just past it.
#[verifier::rlimit(100)]
fn match_phrase_at(phrase: &LocatedMatchingPhrase, text: &str, tokens: &Vec<Token>, start: Cursor) -> (r:
    Option<(Match, Cursor)>)
    requires
        tokens_wf(tokens@, text.spec_bytes()),
        cursor_wf(start, tokens@),
    ensures
        match r {
            Some((m, after)) => {
                &&& phrase_result(*phrase, tokens@, start.token as int) == Some(m)
                &&& match_wf(m, tokens@, text.spec_bytes())
                &&& start.token <= m.first_token
                &&& after.token == m.last_token + 1
                &&& cursor_wf(after, tokens@)
            },
            None => phrase_result(*phrase, tokens@, start.token as int) is None,
        },
{
    proof {
        reveal(phrase_result);
    }
    let ghost bytes = text.spec_bytes();
    let ghost slots = phrase.words@;
    let n_slots = phrase.words.len();
    if n_slots == 0 {
        return None;
    }
    let mut j: usize = 0;
    let mut t: usize = start.token;
    let mut word: usize = start.word;
    let mut first_token: usize = 0;
    let mut first_word: usize = 0;
    loop
        invariant
            tokens_wf(tokens@, bytes),
            bytes == text.spec_bytes(),
            slots == phrase.words@,
            n_slots == slots.len(),
            0 < n_slots,
            j < n_slots,
            t <= tokens@.len(),
            word == word_index(tokens@, t as int),
            start.token <= t,
            j == 0 ==> t == start.token,
            phrase_match_end(tokens@, slots, 0, start.token as int) == phrase_match_end(
                tokens@,
                slots,
                j as int,
                t as int,
            ),
            j > 0 ==> {
                &&& first_token == next_word_token(tokens@, start.token as int)
                &&& first_token < tokens@.len()
                &&& is_word_token(tokens@[first_token as int])
                &&& first_word == word_index(tokens@, first_token as int)
                &&& first_token < t
            },
        decreases n_slots - j,
    {
        // advance to the next word token
        let ghost t0 = t;
        let (t2, word2) = advance_to_word(tokens, t, word, Ghost(bytes));
        t = t2;
        word = word2;
        proof {
            lemma_phrase_match_end_unfold(tokens@, slots, j as int, t0 as int);
        }
        if t >= tokens.len() {
            proof {
                reveal(phrase_result);
            }
            return None;
        }
        // check the slot against this word token
        let tok = &tokens[t];
        let slot_ok = match &phrase.words[j] {
            Some(w) => tok.lemma == *w,
            None => tok.is_stopword(),
        };
        if !slot_ok {
            proof {
                reveal(phrase_result);
            }
            return None;
        }
        if j == 0 {
            first_token = t;
            first_word = word;
        }
        if j == n_slots - 1 {
            proof {
                lemma_next_word_token(tokens@, start.token as int);
            }
            return Some(
                build_phrase_match(phrase, text, tokens, start, first_token, first_word, t, word),
            );
        }
        proof {
            crate::tokens::lemma_word_index_le(tokens@, t as int);
            lemma_word_index_step(tokens@, t as int);
        }
        j += 1;
        t += 1;
        word += 1;
    }
}


impl MatchingWords {
    /// Try to match the word token at `tok_idx` against the word entries, in
    /// table order. The result is exactly the match of the first (entry,
    /// word) pair of the table that matches, or `None` when no pair does.
    #[verifier::rlimit(100)]
    fn try_get_word_match(&self, text: &str, tokens: &Vec<Token>, tok_idx: usize, word_idx: usize) -> (r:
        Option<Match>)
        requires
            tokens_wf(tokens@, text.spec_bytes()),
            tok_idx < tokens@.len(),
            is_word_token(tokens@[tok_idx as int]),
            word_idx == word_index(tokens@, tok_idx as int),
        ensures
            r == first_word_result(
                *self,
                tokens@[tok_idx as int],
                tok_idx,
                word_idx,
                text.spec_bytes(),
                0,
                0,
            ),
            match r {
                Some(m) => {
                    &&& match_wf(m, tokens@, text.spec_bytes())
                    &&& m.first_token == tok_idx
                    &&& m.last_token == tok_idx
                },
                None => true,
            },
    {
        let ghost bytes = text.spec_bytes();
        let ghost tok_g = tokens@[tok_idx as int];
        let mut ei: usize = 0;
        while ei < self.located_matching_words.len()
            invariant
                tokens_wf(tokens@, bytes),
                bytes == text.spec_bytes(),
                tok_g == tokens@[tok_idx as int],
                tok_idx < tokens@.len(),
                is_word_token(tokens@[tok_idx as int]),
                word_idx == word_index(tokens@, tok_idx as int),
                ei <= self.located_matching_words@.len(),
                first_word_result(*self, tok_g, tok_idx, word_idx, bytes, 0, 0)
                    == first_word_result(*self, tok_g, tok_idx, word_idx, bytes, ei as int, 0),
            decreases self.located_matching_words@.len() - ei,
        {
            let entry = &self.located_matching_words[ei];
            let mut wi: usize = 0;
            while wi < entry.words.len()
                invariant
                    tokens_wf(tokens@, bytes),
                    bytes == text.spec_bytes(),
                    tok_g == tokens@[tok_idx as int],
                    tok_idx < tokens@.len(),
                    is_word_token(tokens@[tok_idx as int]),
                    word_idx == word_index(tokens@, tok_idx as int),
                    ei < self.located_matching_words@.len(),
                    entry == self.located_matching_words@[ei as int],
                    wi <= entry.words@.len(),
                    first_word_result(*self, tok_g, tok_idx, word_idx, bytes, 0, 0)
                        == first_word_result(
                        *self,
                        tok_g,
                        tok_idx,
                        word_idx,
                        bytes,
                        ei as int,
                        wi as int,
                    ),
                decreases entry.words@.len() - wi,
            {
                proof {
                    lemma_first_word_result_unfold(
                        *self,
                        tok_g,
                        tok_idx,
                        word_idx,
                        bytes,
                        ei as int,
                        wi as int,
                    );
                }
                let w = &entry.words[wi];
                let tok = &tokens[tok_idx];
                if entry.is_prefix && str_starts_with(tok.lemma.as_str(), w.as_str()) {
                    let w_chars = w.as_str().unicode_len();
                    if 1 <= entry.original_char_count && entry.original_char_count <= w_chars {
                        proof {
                            lemma_str_bytes_valid(text);
                        }
                        let extent = tok.char_end - tok.char_start;
                        proof {
                            reveal(crate::text::boundary);
                            // the token's span is nonempty, so it has a character
                            assert(extent == token_chars(tok_g, bytes).len());
                            crate::text::lemma_span_split(
                                bytes,
                                tok_g.byte_start as int,
                                tok_g.byte_start as int,
                                tok_g.byte_end as int,
                            );
                            assert(token_chars(tok_g, bytes).len() > 0) by {
                                reveal(span_chars);
                                let sub = bytes.subrange(
                                    tok_g.byte_start as int,
                                    tok_g.byte_end as int,
                                );
                                assert(sub.len() > 0);
                                assert(vstd::utf8::valid_utf8(sub));
                                assert(span_chars(bytes, tok_g.byte_start as int, tok_g.byte_end as int)
                                    == vstd::utf8::decode_utf8(sub));
                            }
                        }
                        let k = if entry.original_char_count <= extent {
                            entry.original_char_count
                        } else {
                            extent
                        };
                        let e = char_prefix_end(text, tok.byte_start, tok.byte_end, k);
                        let byte_len = e - tok.byte_start;
                        proof {
                            reveal(span_chars);
                            reveal(crate::text::boundary);
                            let sub = bytes.subrange(tok_g.byte_start as int, e as int);
                            let all = token_chars(tok_g, bytes);
                            crate::text::lemma_span_split(
                                bytes,
                                tok_g.byte_start as int,
                                tok_g.byte_start as int,
                                e as int,
                            );
                            assert(vstd::utf8::valid_utf8(sub));
                            vstd::utf8::decode_utf8_encode_utf8(sub);
                            assert(vstd::utf8::decode_utf8(sub) == all.take(k as int));
                            assert(byte_len == encode_utf8(all.take(k as int)).len());
                            assert(byte_len > 0) by {
                                if e == tok_g.byte_start {
                                    assert(sub =~= Seq::<u8>::empty());
                                }
                            }
                        }
                        let m = Match {
                            first_token: tok_idx,
                            last_token: tok_idx,
                            first_word: word_idx,
                            last_word: word_idx,
                            byte_len,
                            char_count: k,
                            position: entry.position,
                        };
                        proof {
                            assert(word_pair_result(
                                *self,
                                ei as int,
                                wi as int,
                                tok_g,
                                tok_idx,
                                word_idx,
                                bytes,
                            ) == Some(m));
                        }
                        return Some(m);
                    }
                    // word shorter than the original query word: skip this pair
                } else if tok.lemma == *w {
                    let m = Match {
                        first_token: tok_idx,
                        last_token: tok_idx,
                        first_word: word_idx,
                        last_word: word_idx,
                        byte_len: tok.byte_end - tok.byte_start,
                        char_count: tok.char_end - tok.char_start,
                        position: entry.position,
                    };
                    return Some(m);
                }
                wi += 1;
            }
            proof {
                lemma_first_word_result_unfold(
                    *self,
                    tok_g,
                    tok_idx,
                    word_idx,
                    bytes,
                    ei as int,
                    wi as int,
                );
            }
            ei += 1;
        }
        proof {
            lemma_first_word_result_unfold(
                *self,
                tok_g,
                tok_idx,
                word_idx,
                bytes,
                self.located_matching_words@.len() as int,
                0,
            );
        }
        None
    }

    /// Find every match of the table over the token run, in token order:
    /// exactly the list that `match_scan` names, scanning from the first
    /// token. At each cursor position phrases are tried first, then single
    /// words; the resulting list is well formed (valid, pairwise disjoint
    /// spans) and an empty table yields no matches. The matches stay in
    /// token order; they are not re-ordered by query position, and the
    /// scorer sorts query ranges itself where it needs them ordered.
    #[verifier::rlimit(100)]
    pub fn get_matches(&self, text: &str, tokens: &Vec<Token>) -> (ms: Vec<Match>)
        requires
            tokens_wf(tokens@, text.spec_bytes()),
        ensures
            matches_wf(ms@, tokens@, text.spec_bytes()),
            ms@ == match_scan(*self, tokens@, text.spec_bytes(), 0),
            self.located_matching_phrases@.len() == 0 && self.located_matching_words@.len() == 0
                ==> ms@.len() == 0,
    {
        let ghost bytes = text.spec_bytes();
        let ghost target = match_scan(*self, tokens@, bytes, 0);
        proof {
            lemma_word_index_base(tokens@);
            assert(Seq::<Match>::empty() + target =~= target);
        }
        let mut cur = Cursor { token: 0, word: 0 };
        let mut ms: Vec<Match> = Vec::new();
        loop
            invariant
                tokens_wf(tokens@, bytes),
                bytes == text.spec_bytes(),
                cursor_wf(cur, tokens@),
                matches_wf(ms@, tokens@, bytes),
                forall|i: int| 0 <= i < ms@.len() ==> (#[trigger] ms@[i]).last_token < cur.token,
                target == match_scan(*self, tokens@, bytes, 0),
                target == ms@ + match_scan(*self, tokens@, bytes, cur.token as int),
            ensures
                matches_wf(ms@, tokens@, bytes),
                ms@ == target,
            decreases tokens@.len() + 1 - cur.token,
        {
            let ghost cur0 = cur;
            proof {
                lemma_match_scan_unfold(*self, tokens@, bytes, cur0.token as int);
            }
            if let Some(m) = self.try_get_phrase_match(text, tokens, &mut cur) {
                let ghost pre = ms@;
                ms.push(m);
                proof {
                    assert(ms@ =~= pre + seq![m]);
                    assert(target =~= ms@ + match_scan(*self, tokens@, bytes, cur.token as int));
                }
                continue;
            }
            // advance to the next word token
            let (w, word2) = advance_to_word(tokens, cur.token, cur.word, Ghost(bytes));
            if w >= tokens.len() {
                cur = Cursor { token: w, word: word2 };
                proof {
                    lemma_match_scan_unfold(*self, tokens@, bytes, cur.token as int);
                    assert(match_scan(*self, tokens@, bytes, cur.token as int)
                        =~= Seq::<Match>::empty());
                    assert(target =~= ms@ + match_scan(*self, tokens@, bytes, cur.token as int));
                }
                break;
            }
            let m_opt = self.try_get_word_match(text, tokens, w, word2);
            proof {
                assert(word2 as nat == word_index(tokens@, w as int));
                assert((word_index(tokens@, w as int) as usize) == word2);
            }
            if let Some(m) = m_opt {
                let ghost pre = ms@;
                ms.push(m);
                proof {
                    assert(ms@ =~= pre + seq![m]);
                }
            }
            proof {
                crate::tokens::lemma_word_index_le(tokens@, w as int);
                lemma_word_index_step(tokens@, w as int);
                assert(target =~= ms@ + match_scan(*self, tokens@, bytes, w + 1));
            }
            cur = Cursor { token: w + 1, word: word2 + 1 };
        }
        proof {
            if self.located_matching_phrases@.len() == 0 && self.located_matching_words@.len()
                == 0 {
                lemma_empty_table_scan_empty(*self, tokens@, bytes, 0);
            }
        }
        ms
    }
}

/// An empty matching-term table matches nothing: its scan is empty.
proof fn lemma_empty_table_scan_empty(mw: MatchingWords, tokens: Seq<Token>, bytes: Seq<u8>, t: int)
    requires
        mw.located_matching_phrases@.len() == 0,
        mw.located_matching_words@.len() == 0,
    ensures
        match_scan(mw, tokens, bytes, t).len() == 0,
    decreases tokens.len() - t,
{
    lemma_match_scan_unfold(mw, tokens, bytes, t);
    lemma_first_phrase_result_unfold(mw, tokens, t, 0);
    if 0 <= t < tokens.len() {
        let w = next_word_token(tokens, t);
        lemma_next_word_token(tokens, t);
        lemma_first_word_result_unfold(
            mw,
            tokens[w],
            w as usize,
            word_index(tokens, w) as usize,
            bytes,
            0,
            0,
        );
        if t <= w < tokens.len() {
            lemma_empty_table_scan_empty(mw, tokens, bytes, w + 1);
        }
    }
}

} // verus!
