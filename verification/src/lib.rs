//! Search-result highlighting and cropping.
//!
//! Given a source text, a tokenizer and a compiled table of query terms, this
//! library finds every token span that matches the query (as single words,
//! prefixes or phrases), selects the best-scoring contiguous cluster of
//! matches under an optional word budget, and renders the text with
//! configurable highlight delimiters and crop markers, without ever breaking
//! a UTF-8 character in two.

use vstd::prelude::*;
use vstd::string::StringExecFns;
use vstd::string::StringSliceAdditionalSpecFns;

pub mod best_match_interval;
pub mod format;
pub mod match_bounds;
pub mod matching_words;
pub mod text;
pub mod tokenize;
pub mod tokens;

use crate::best_match_interval::best_interval_spec;
use crate::format::{format_text, formatted_output};
use crate::match_bounds::{
    bounds_wf, crop_of, crop_window_spec, indexes_wf, no_match_crop_end, window_indexes_spec,
    window_toggle_spec, MatchBounds,
};
use crate::matching_words::{match_scan, matches_wf, Match, MatchingWords};
use crate::tokenize::tokenize_text;
use crate::tokens::{tokens_wf, tokens_well_formed, Token};

verus! {

pub const DEFAULT_CROP_MARKER: &'static str = "…";

pub const DEFAULT_HIGHLIGHT_PREFIX: &'static str = "<em>";

pub const DEFAULT_HIGHLIGHT_SUFFIX: &'static str = "</em>";

/// Formatting request: whether to wrap matches in highlight delimiters, and
/// an optional crop budget in words. A crop of `Some(0)` means no crop.
#[derive(Copy, Clone, Debug)]
pub struct FormatOptions {
    pub highlight: bool,
    pub crop: Option<usize>,
}

impl FormatOptions {
    /// Combine two requests: highlight if either asks for it, crop by the
    /// first budget given.
    pub fn merge(self, other: Self) -> (r: Self)
        ensures
            r.highlight == (self.highlight || other.highlight),
            r.crop == (if self.crop is Some {
                self.crop
            } else {
                other.crop
            }),
    {
        Self {
            highlight: self.highlight || other.highlight,
            crop: if self.crop.is_some() {
                self.crop
            } else {
                other.crop
            },
        }
    }

    /// Whether any formatting work is requested at all.
    pub fn should_format(&self) -> (r: bool)
        ensures
            r == (self.highlight || self.crop is Some),
    {
        self.highlight || self.crop.is_some()
    }
}

impl Default for FormatOptions {
    fn default() -> (r: Self)
        ensures
            !r.highlight,
            r.crop is None,
    {
        FormatOptions { highlight: false, crop: None }
    }
}

/// Builds `Matcher`s over texts, holding the query's matching-term table, the
/// tokenizer, and the formatting strings (with their usual defaults).
pub struct MatcherBuilder<'m> {
    pub matching_words: MatchingWords,
    pub tokenizer: charabia::Tokenizer<'m>,
    pub crop_marker: Option<String>,
    pub highlight_prefix: Option<String>,
    pub highlight_suffix: Option<String>,
}

impl<'m> MatcherBuilder<'m> {
    /// A builder with the default formatting strings.
    pub fn new(matching_words: MatchingWords, tokenizer: charabia::Tokenizer<'m>) -> (r: Self)
        ensures
            r.matching_words == matching_words,
            r.crop_marker is None,
            r.highlight_prefix is None,
            r.highlight_suffix is None,
    {
        Self {
            matching_words,
            tokenizer,
            crop_marker: None,
            highlight_prefix: None,
            highlight_suffix: None,
        }
    }

    /// Override the crop marker.
    pub fn crop_marker(&mut self, marker: String) -> (r: &Self)
        ensures
            final(self).crop_marker == Some(marker),
            final(self).matching_words == old(self).matching_words,
            final(self).highlight_prefix == old(self).highlight_prefix,
            final(self).highlight_suffix == old(self).highlight_suffix,
    {
        self.crop_marker = Some(marker);
        self
    }

    /// Override the highlight prefix.
    pub fn highlight_prefix(&mut self, prefix: String) -> (r: &Self)
        ensures
            final(self).highlight_prefix == Some(prefix),
            final(self).matching_words == old(self).matching_words,
            final(self).crop_marker == old(self).crop_marker,
            final(self).highlight_suffix == old(self).highlight_suffix,
    {
        self.highlight_prefix = Some(prefix);
        self
    }

    /// Override the highlight suffix.
    pub fn highlight_suffix(&mut self, suffix: String) -> (r: &Self)
        ensures
            final(self).highlight_suffix == Some(suffix),
            final(self).matching_words == old(self).matching_words,
            final(self).crop_marker == old(self).crop_marker,
            final(self).highlight_prefix == old(self).highlight_prefix,
    {
        self.highlight_suffix = Some(suffix);
        self
    }

    /// A matcher over one text, with an empty cache.
    pub fn build<'t, 'lang>(
        &self,
        text: &'t str,
        locales: Option<&'lang [charabia::Language]>,
    ) -> (r: Matcher<'t, 'm, '_, 'lang>)
        ensures
            r.wf(),
            r.text == text,
            r.matching_words == &self.matching_words,
            r.crop_marker@ == (match self.crop_marker {
                Some(s) => s@,
                None => DEFAULT_CROP_MARKER@,
            }),
            r.highlight_prefix@ == (match self.highlight_prefix {
                Some(s) => s@,
                None => DEFAULT_HIGHLIGHT_PREFIX@,
            }),
            r.highlight_suffix@ == (match self.highlight_suffix {
                Some(s) => s@,
                None => DEFAULT_HIGHLIGHT_SUFFIX@,
            }),
    {
        Matcher {
            text,
            matching_words: &self.matching_words,
            tokenizer: &self.tokenizer,
            locales,
            crop_marker: match &self.crop_marker {
                Some(s) => s.as_str(),
                None => DEFAULT_CROP_MARKER,
            },
            highlight_prefix: match &self.highlight_prefix {
                Some(s) => s.as_str(),
                None => DEFAULT_HIGHLIGHT_PREFIX,
            },
            highlight_suffix: match &self.highlight_suffix {
                Some(s) => s.as_str(),
                None => DEFAULT_HIGHLIGHT_SUFFIX,
            },
            tokens_and_matches: None,
        }
    }
}

/// Analyzes one text: finds the query's matches in it (lazily, cached) and
/// renders the requested highlighted and cropped view of it.
pub struct Matcher<'t, 'tokenizer, 'b, 'lang> {
    pub text: &'t str,
    pub matching_words: &'b MatchingWords,
    pub tokenizer: &'b charabia::Tokenizer<'tokenizer>,
    pub locales: Option<&'lang [charabia::Language]>,
    pub crop_marker: &'b str,
    pub highlight_prefix: &'b str,
    pub highlight_suffix: &'b str,
    pub tokens_and_matches: Option<(Vec<Token>, Vec<Match>)>,
}

impl<'t> Matcher<'t, '_, '_, '_> {
    /// The cache, when filled, holds a well-formed token run over this text
    /// and exactly the matches that scanning that run with this table yields
    /// (a well-formed list, empty when the table is empty).
    pub open spec fn wf(self) -> bool {
        match self.tokens_and_matches {
            Some(tm) => {
                &&& tokens_wf(tm.0@, self.text.spec_bytes())
                &&& matches_wf(tm.1@, tm.0@, self.text.spec_bytes())
                &&& tm.1@ == match_scan(*self.matching_words, tm.0@, self.text.spec_bytes(), 0)
                &&& (self.table_empty() ==> tm.1@.len() == 0)
            },
            None => true,
        }
    }

    /// Whether the matching-term table is empty: nothing can ever match.
    pub open spec fn table_empty(self) -> bool {
        self.matching_words.located_matching_phrases@.len() == 0
            && self.matching_words.located_matching_words@.len() == 0
    }

    /// Tokenize the text and find its matches, if not already cached and the
    /// tokenizer produced a well-formed run over this text.
    fn ensure_tokens_and_matches(&mut self)
        requires
            old(self).wf(),
        ensures
            final(self).wf(),
            final(self).text == old(self).text,
            final(self).matching_words == old(self).matching_words,
            final(self).crop_marker == old(self).crop_marker,
            final(self).highlight_prefix == old(self).highlight_prefix,
            final(self).highlight_suffix == old(self).highlight_suffix,
    {
        if self.tokens_and_matches.is_none() {
            let tokens = tokenize_text(self.tokenizer, self.text, self.locales);
            if tokens_well_formed(&tokens, self.text) {
                let matches = self.matching_words.get_matches(self.text, &tokens);
                self.tokens_and_matches = Some((tokens, matches));
            }
        }
    }

    /// The match bounds of this text under the given request: `Full` when
    /// the text is empty or when the tokenizer failed to produce a
    /// well-formed run; otherwise, once the cache holds the scanned matches,
    /// `Full` exactly when no positive crop is asked and either no highlight
    /// is asked or there is no match, and in every other case a well-formed
    /// offset list over the text's bytes.
    #[verifier::rlimit(100)]
    pub fn get_match_bounds(&mut self, format_options: FormatOptions) -> (r: MatchBounds)
        requires
            old(self).wf(),
        ensures
            final(self).wf(),
            final(self).text == old(self).text,
            final(self).matching_words == old(self).matching_words,
            final(self).crop_marker == old(self).crop_marker,
            final(self).highlight_prefix == old(self).highlight_prefix,
            final(self).highlight_suffix == old(self).highlight_suffix,
            bounds_wf(r, old(self).text.spec_bytes()),
            old(self).text@.len() == 0 ==> r is Full,
            match final(self).tokens_and_matches {
                Some(tm) => ({
                    let bytes = old(self).text.spec_bytes();
                    let crop = crop_of(format_options);
                    &&& (r is Full <==> (crop == 0 && (!format_options.highlight || tm.1@.len()
                        == 0)))
                    &&& (crop > 0 && tm.1@.len() == 0) ==> match r {
                        MatchBounds::Formatted { highlight_toggle, indexes } => !highlight_toggle
                            && indexes@ == seq![
                            0usize,
                            no_match_crop_end(tm.0@, bytes.len() as int, 0, crop, 0) as usize,
                        ],
                        MatchBounds::Full => false,
                    }
                    &&& (crop > 0 && tm.1@.len() > 0) ==> match r {
                        MatchBounds::Formatted { highlight_toggle, indexes } => ({
                            let fl = best_interval_spec(tm.1@, crop);
                            let w = crop_window_spec(
                                tm.0@,
                                bytes.len() as int,
                                tm.1@[fl.0],
                                tm.1@[fl.1],
                                crop,
                            );
                            if format_options.highlight {
                                &&& indexes@ == window_indexes_spec(
                                    tm.1@,
                                    tm.0@,
                                    fl.0,
                                    fl.1,
                                    w.0 as usize,
                                    w.1 as usize,
                                )
                                &&& highlight_toggle == window_toggle_spec(
                                    tm.1@,
                                    tm.0@,
                                    fl.0,
                                    fl.1,
                                    w.0 as usize,
                                    w.1 as usize,
                                )
                            } else {
                                &&& !highlight_toggle
                                &&& indexes@ == seq![w.0 as usize, w.1 as usize]
                            }
                        }),
                        MatchBounds::Full => false,
                    }
                    &&& (crop == 0 && format_options.highlight && tm.1@.len() > 0) ==> match r {
                        MatchBounds::Formatted { highlight_toggle, indexes } => ({
                            &&& indexes@ == window_indexes_spec(
                                tm.1@,
                                tm.0@,
                                0,
                                tm.1@.len() - 1,
                                0,
                                bytes.len() as usize,
                            )
                            &&& highlight_toggle == window_toggle_spec(
                                tm.1@,
                                tm.0@,
                                0,
                                tm.1@.len() - 1,
                                0,
                                bytes.len() as usize,
                            )
                        }),
                        MatchBounds::Full => false,
                    }
                }),
                None => r is Full,
            },
            !format_options.highlight && (format_options.crop is None || format_options.crop
                == Some(0usize)) ==> r is Full,
            old(self).table_empty() && (format_options.crop is None || format_options.crop
                == Some(0usize)) ==> r is Full,
    {
        if self.text.is_empty() {
            proof {
                // a well-formed token run cannot tile an empty text, so the
                // cache is necessarily empty here
                if self.tokens_and_matches is Some {
                    let tm = self.tokens_and_matches->0;
                    assert(tokens_wf(tm.0@, self.text.spec_bytes()));
                    assert(tm.0@[0].byte_start < tm.0@[0].byte_end);
                    assert(false);
                }
            }
            return MatchBounds::Full;
        }
        self.ensure_tokens_and_matches();
        match &self.tokens_and_matches {
            Some(tm) => crate::match_bounds::get_match_bounds(
                self.text,
                &tm.0,
                &tm.1,
                format_options,
            ),
            None => MatchBounds::Full,
        }
    }

    /// The formatted rendering of this text: the text itself when there is
    /// nothing to do, else the rendering of a well-formed offset list over
    /// the text, in this matcher's delimiters and marker. Without
    /// highlighting and cropping the text always comes back verbatim, and an
    /// empty matching-term table with no crop always comes back verbatim too.
    #[verifier::rlimit(100)]
    pub fn get_formatted_text(&mut self, format_options: FormatOptions) -> (out: String)
        requires
            old(self).wf(),
        ensures
            final(self).wf(),
            final(self).text == old(self).text,
            final(self).matching_words == old(self).matching_words,
            final(self).crop_marker == old(self).crop_marker,
            final(self).highlight_prefix == old(self).highlight_prefix,
            final(self).highlight_suffix == old(self).highlight_suffix,
            !format_options.highlight && format_options.crop is None ==> out@ == old(self).text@,
            old(self).table_empty() && (format_options.crop is None || format_options.crop
                == Some(0usize)) ==> out@ == old(self).text@,
            out@ == old(self).text@ || exists|toggle: bool, idx: Seq<usize>|
                indexes_wf(idx, old(self).text.spec_bytes()) && out@ == #[trigger] formatted_output(
                    old(self).text.spec_bytes(),
                    old(self).crop_marker@,
                    old(self).highlight_prefix@,
                    old(self).highlight_suffix@,
                    toggle,
                    idx,
                ),
            old(self).text@.len() > 0 && (format_options.highlight || format_options.crop is Some)
                ==> match final(self).tokens_and_matches {
                Some(tm) => ({
                    let bytes = old(self).text.spec_bytes();
                    let marker = old(self).crop_marker@;
                    let hp = old(self).highlight_prefix@;
                    let hs = old(self).highlight_suffix@;
                    let crop = crop_of(format_options);
                    &&& (crop == 0 && (!format_options.highlight || tm.1@.len() == 0)) ==> out@
                        == old(self).text@
                    &&& (crop > 0 && tm.1@.len() == 0) ==> out@ == formatted_output(
                        bytes,
                        marker,
                        hp,
                        hs,
                        false,
                        seq![
                            0usize,
                            no_match_crop_end(tm.0@, bytes.len() as int, 0, crop, 0) as usize,
                        ],
                    )
                    &&& (crop > 0 && tm.1@.len() > 0) ==> ({
                        let fl = best_interval_spec(tm.1@, crop);
                        let w = crop_window_spec(
                            tm.0@,
                            bytes.len() as int,
                            tm.1@[fl.0],
                            tm.1@[fl.1],
                            crop,
                        );
                        if format_options.highlight {
                            out@ == formatted_output(
                                bytes,
                                marker,
                                hp,
                                hs,
                                window_toggle_spec(tm.1@, tm.0@, fl.0, fl.1, w.0 as usize, w.1 as usize),
                                window_indexes_spec(tm.1@, tm.0@, fl.0, fl.1, w.0 as usize, w.1 as usize),
                            )
                        } else {
                            out@ == formatted_output(
                                bytes,
                                marker,
                                hp,
                                hs,
                                false,
                                seq![w.0 as usize, w.1 as usize],
                            )
                        }
                    })
                    &&& (crop == 0 && format_options.highlight && tm.1@.len() > 0) ==> out@
                        == formatted_output(
                        bytes,
                        marker,
                        hp,
                        hs,
                        window_toggle_spec(tm.1@, tm.0@, 0, tm.1@.len() - 1, 0, bytes.len() as usize),
                        window_indexes_spec(tm.1@, tm.0@, 0, tm.1@.len() - 1, 0, bytes.len() as usize),
                    )
                }),
                None => out@ == old(self).text@,
            },
    {
        if !format_options.highlight && format_options.crop.is_none() {
            return text_to_string(self.text);
        }
        let bounds = self.get_match_bounds(format_options);
        match bounds {
            MatchBounds::Full => text_to_string(self.text),
            MatchBounds::Formatted { highlight_toggle, indexes } => {
                let out = format_text(
                    self.text,
                    self.crop_marker,
                    self.highlight_prefix,
                    self.highlight_suffix,
                    highlight_toggle,
                    &indexes,
                );
                proof {
                    assert(indexes_wf(indexes@, self.text.spec_bytes()) && out@
                        == formatted_output(
                        self.text.spec_bytes(),
                        self.crop_marker@,
                        self.highlight_prefix@,
                        self.highlight_suffix@,
                        highlight_toggle,
                        indexes@,
                    ));
                }
                out
            },
        }
    }
}

/// The text as an owned string.
fn text_to_string(text: &str) -> (out: String)
    ensures
        out@ == text@,
{
    String::from_str(text)
}

} // verus!
