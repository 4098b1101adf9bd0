//! The boundary computer.
//!
//! Given the tokens, the matches and the formatting request, compute
//! `MatchBounds`: either the whole text verbatim, or an ordered list of byte
//! offsets that partitions the selected window of the text into alternating
//! plain and highlighted segments. Every offset lies on a UTF-8 character
//! boundary and the list never decreases, so the formatter can slice the text
//! without ever splitting a character.

use vstd::prelude::*;
use vstd::string::StringSliceAdditionalSpecFns;

use crate::best_match_interval::{best_interval_spec, get_best_match_interval};
use crate::matching_words::{
    lemma_matches_ordered, match_byte_end, match_byte_start, match_wf, matches_wf, Match,
};
use crate::text::{boundary, lemma_text_edges, text_byte_len};
use crate::tokens::{
    is_word_token, lemma_token_offsets_ordered, tokens_wf, Token, SeparatorKind, TokenKind,
};
use crate::FormatOptions;

verus! {

/// The result of boundary computation: the text verbatim, or an ordered list
/// of byte offsets partitioning the selected window into alternating plain
/// and highlighted segments, starting in the state named by
/// `highlight_toggle`. A crop marker is implied before the first offset when
/// it is not zero, and after the last when it is not the text's length.
#[derive(Debug, Clone, PartialEq, Eq)]
pub enum MatchBounds {
    Full,
    Formatted { highlight_toggle: bool, indexes: Vec<usize> },
}

/// A well-formed offset list: at least two offsets, never decreasing, all on
/// character boundaries of the text and within it.
pub open spec fn indexes_wf(indexes: Seq<usize>, bytes: Seq<u8>) -> bool {
    &&& indexes.len() >= 2
    &&& forall|i: int|
        0 <= i < indexes.len() ==> boundary(bytes, (#[trigger] indexes[i]) as int) && indexes[i]
            <= bytes.len()
    &&& forall|i: int| #![trigger indexes[i]] 1 <= i < indexes.len() ==> indexes[i - 1] <= indexes[i]
}

/// Every offset list handed out is well formed over the text bytes.
pub open spec fn bounds_wf(b: MatchBounds, bytes: Seq<u8>) -> bool {
    match b {
        MatchBounds::Full => true,
        MatchBounds::Formatted { highlight_toggle, indexes } => indexes_wf(indexes@, bytes),
    }
}

/// Whether any word token exists before position `t`.
fn has_word_before(tokens: &Vec<Token>, t: usize) -> (r: bool)
    requires
        t <= tokens@.len(),
    ensures
        r == exists|k: int| 0 <= k < t && is_word_token(#[trigger] tokens@[k]),
{
    let mut i: usize = 0;
    while i < t
        invariant
            i <= t <= tokens@.len(),
            forall|k: int| 0 <= k < i ==> !is_word_token(#[trigger] tokens@[k]),
        decreases t - i,
    {
        if !tokens[i].is_separator() {
            return true;
        }
        i += 1;
    }
    false
}

/// Whether any word token exists after position `t`.
fn has_word_after(tokens: &Vec<Token>, t: usize) -> (r: bool)
    requires
        t < tokens@.len(),
    ensures
        r == exists|k: int| t < k < tokens@.len() && is_word_token(#[trigger] tokens@[k]),
{
    let n = tokens.len();
    let mut i: usize = t + 1;
    while i < n
        invariant
            n == tokens@.len(),
            t < i <= tokens@.len(),
            forall|k: int| t < k < i ==> !is_word_token(#[trigger] tokens@[k]),
        decreases tokens@.len() - i,
    {
        if !tokens[i].is_separator() {
            return true;
        }
        i += 1;
    }
    false
}

/// For a crop without matches: the byte offset where the window of the first
/// `crop_size` words ends. The window extends to the text's end when no word
/// lies beyond it.
#[verifier::rlimit(100)]
fn get_crop_bounds_with_no_matches(text: &str, tokens: &Vec<Token>, crop_size: usize) -> (r: usize)
    requires
        tokens_wf(tokens@, text.spec_bytes()),
        crop_size >= 1,
    ensures
        boundary(text.spec_bytes(), r as int),
        r <= text.spec_bytes().len(),
        r == no_match_crop_end(
            tokens@,
            text.spec_bytes().len() as int,
            0,
            crop_size as int,
            0,
        ),
{
    let ghost bytes = text.spec_bytes();
    let ghost target = no_match_crop_end(tokens@, bytes.len() as int, 0, crop_size as int, 0);
    proof {
        lemma_text_edges(text);
    }
    let mut i: usize = 0;
    let mut budget = crop_size;
    let mut rw: usize = 0;
    while i < tokens.len()
        invariant
            tokens_wf(tokens@, bytes),
            bytes == text.spec_bytes(),
            target == no_match_crop_end(tokens@, bytes.len() as int, 0, crop_size as int, 0),
            i <= tokens@.len(),
            crop_size >= 1,
            budget <= crop_size,
            budget < crop_size ==> rw < tokens@.len() && is_word_token(tokens@[rw as int]),
            target == no_match_crop_end(
                tokens@,
                bytes.len() as int,
                i as int,
                budget as int,
                if budget < crop_size {
                    tokens@[rw as int].byte_end as int
                } else {
                    0
                },
            ),
        decreases tokens@.len() - i,
    {
        proof {
            lemma_no_match_crop_end_unfold(
                tokens@,
                bytes.len() as int,
                i as int,
                budget as int,
                if budget < crop_size {
                    tokens@[rw as int].byte_end as int
                } else {
                    0
                },
            );
        }
        if !tokens[i].is_separator() {
            if budget == 0 {
                return tokens[rw].byte_end;
            }
            budget -= 1;
            rw = i;
        }
        i += 1;
    }
    proof {
        lemma_no_match_crop_end_unfold(
            tokens@,
            bytes.len() as int,
            i as int,
            budget as int,
            if budget < crop_size {
                tokens@[rw as int].byte_end as int
            } else {
                0
            },
        );
    }
    text_byte_len(text)
}

/// The crop expansion's state: the window's outer token indexes `[lo, hi]`,
/// the outermost included word token on each side, and the remaining word
/// budget.
pub struct CropWalk {
    pub lo: int,
    pub hi: int,
    pub lw: int,
    pub rw: int,
    pub budget: int,
}

/// The crop expansion walk: step outward from the matched span while budget
/// remains, crossing like separators together and staying behind a hard one,
/// taking words from the left first when both sides offer one, and spending
/// one budget word per word taken.
#[verifier::opaque]
pub open spec fn crop_walk(tokens: Seq<Token>, st: CropWalk) -> CropWalk
    decreases st.lo + tokens.len() - st.hi,
{
    let n = tokens.len() as int;
    if !(0 <= st.lo && 0 <= st.hi < n) || st.budget <= 0 || !(st.lo > 0 || st.hi < n - 1) {
        st
    } else {
        let before_word = st.lo > 0 && is_word_token(tokens[st.lo - 1]);
        let after_word = st.hi < n - 1 && is_word_token(tokens[st.hi + 1]);
        let st1 = if st.lo > 0 && st.hi < n - 1 {
            if !before_word && !after_word {
                let kb = tokens[st.lo - 1].kind == TokenKind::Separator(SeparatorKind::Hard);
                let ka = tokens[st.hi + 1].kind == TokenKind::Separator(SeparatorKind::Hard);
                if kb == ka {
                    CropWalk { lo: st.lo - 1, hi: st.hi + 1, lw: st.lw, rw: st.rw, budget: st.budget }
                } else if kb {
                    CropWalk { lo: st.lo, hi: st.hi + 1, lw: st.lw, rw: st.rw, budget: st.budget }
                } else {
                    CropWalk { lo: st.lo - 1, hi: st.hi, lw: st.lw, rw: st.rw, budget: st.budget }
                }
            } else if before_word && !after_word {
                CropWalk { lo: st.lo - 1, hi: st.hi, lw: st.lo - 1, rw: st.rw, budget: st.budget - 1 }
            } else if !before_word && after_word {
                CropWalk { lo: st.lo, hi: st.hi + 1, lw: st.lw, rw: st.hi + 1, budget: st.budget - 1 }
            } else {
                let a = CropWalk {
                    lo: st.lo - 1,
                    hi: st.hi,
                    lw: st.lo - 1,
                    rw: st.rw,
                    budget: st.budget - 1,
                };
                if a.budget > 0 {
                    CropWalk { lo: a.lo, hi: a.hi + 1, lw: a.lw, rw: a.hi + 1, budget: a.budget - 1 }
                } else {
                    a
                }
            }
        } else if st.lo > 0 {
            if before_word {
                CropWalk { lo: st.lo - 1, hi: st.hi, lw: st.lo - 1, rw: st.rw, budget: st.budget - 1 }
            } else {
                CropWalk { lo: st.lo - 1, hi: st.hi, lw: st.lw, rw: st.rw, budget: st.budget }
            }
        } else {
            if after_word {
                CropWalk { lo: st.lo, hi: st.hi + 1, lw: st.lw, rw: st.hi + 1, budget: st.budget - 1 }
            } else {
                CropWalk { lo: st.lo, hi: st.hi + 1, lw: st.lw, rw: st.rw, budget: st.budget }
            }
        };
        crop_walk(tokens, st1)
    }
}

/// One unfolding step of `crop_walk`: it either stops or takes the branch
/// the separator kinds and the budget select.
proof fn lemma_crop_walk_unfold(tokens: Seq<Token>, st: CropWalk)
    ensures
        ({
            let n = tokens.len() as int;
            !(0 <= st.lo && 0 <= st.hi < n) || st.budget <= 0 || !(st.lo > 0 || st.hi < n - 1)
        }) ==> crop_walk(tokens, st) == st,
        ({
            let n = tokens.len() as int;
            (0 <= st.lo && 0 <= st.hi < n) && st.budget > 0 && (st.lo > 0 || st.hi < n - 1)
        }) ==> crop_walk(tokens, st) == {
            let n = tokens.len() as int;
            let before_word = st.lo > 0 && is_word_token(tokens[st.lo - 1]);
            let after_word = st.hi < n - 1 && is_word_token(tokens[st.hi + 1]);
            let st1 = if st.lo > 0 && st.hi < n - 1 {
                if !before_word && !after_word {
                    let kb = tokens[st.lo - 1].kind == TokenKind::Separator(SeparatorKind::Hard);
                    let ka = tokens[st.hi + 1].kind == TokenKind::Separator(SeparatorKind::Hard);
                    if kb == ka {
                        CropWalk { lo: st.lo - 1, hi: st.hi + 1, lw: st.lw, rw: st.rw, budget: st.budget }
                    } else if kb {
                        CropWalk { lo: st.lo, hi: st.hi + 1, lw: st.lw, rw: st.rw, budget: st.budget }
                    } else {
                        CropWalk { lo: st.lo - 1, hi: st.hi, lw: st.lw, rw: st.rw, budget: st.budget }
                    }
                } else if before_word && !after_word {
                    CropWalk { lo: st.lo - 1, hi: st.hi, lw: st.lo - 1, rw: st.rw, budget: st.budget - 1 }
                } else if !before_word && after_word {
                    CropWalk { lo: st.lo, hi: st.hi + 1, lw: st.lw, rw: st.hi + 1, budget: st.budget - 1 }
                } else {
                    let a = CropWalk {
                        lo: st.lo - 1,
                        hi: st.hi,
                        lw: st.lo - 1,
                        rw: st.rw,
                        budget: st.budget - 1,
                    };
                    if a.budget > 0 {
                        CropWalk { lo: a.lo, hi: a.hi + 1, lw: a.lw, rw: a.hi + 1, budget: a.budget - 1 }
                    } else {
                        a
                    }
                }
            } else if st.lo > 0 {
                if before_word {
                    CropWalk { lo: st.lo - 1, hi: st.hi, lw: st.lo - 1, rw: st.rw, budget: st.budget - 1 }
                } else {
                    CropWalk { lo: st.lo - 1, hi: st.hi, lw: st.lw, rw: st.rw, budget: st.budget }
                }
            } else {
                if after_word {
                    CropWalk { lo: st.lo, hi: st.hi + 1, lw: st.lw, rw: st.hi + 1, budget: st.budget - 1 }
                } else {
                    CropWalk { lo: st.lo, hi: st.hi + 1, lw: st.lw, rw: st.rw, budget: st.budget }
                }
            };
            crop_walk(tokens, st1)
        },
{
    reveal(crop_walk);
}

/// The crop window of a match interval: the byte bounds the walk reaches,
/// snapped to the text's edge on a side with no word beyond the window.
#[verifier::opaque]
pub open spec fn crop_window_spec(
    tokens: Seq<Token>,
    text_len: int,
    first_m: Match,
    last_m: Match,
    crop: int,
) -> (int, int) {
    let span = last_m.last_word - first_m.first_word + 1;
    let init = CropWalk {
        lo: first_m.first_token as int,
        hi: last_m.last_token as int,
        lw: first_m.first_token as int,
        rw: last_m.last_token as int,
        budget: if span >= crop {
            0
        } else {
            crop - span
        },
    };
    let w = crop_walk(tokens, init);
    let cbs = if exists|k: int| 0 <= k < w.lw && is_word_token(#[trigger] tokens[k]) {
        tokens[w.lw].byte_start as int
    } else {
        0
    };
    let cbe = if exists|k: int| w.rw < k < tokens.len() && is_word_token(#[trigger] tokens[k]) {
        tokens[w.rw].byte_end as int
    } else {
        text_len
    };
    (cbs, cbe)
}

/// Run the crop expansion walk from the token window `[lo0, hi0]` with the
/// given word budget, returning the outermost included word token on each
/// side: exactly what `crop_walk` names.
#[verifier::rlimit(100)]
fn run_crop_walk(text: &str, tokens: &Vec<Token>, lo0: usize, hi0: usize, budget0: usize) -> (r: (
    usize,
    usize,
))
    requires
        tokens_wf(tokens@, text.spec_bytes()),
        lo0 <= hi0 < tokens@.len(),
        is_word_token(tokens@[lo0 as int]),
        is_word_token(tokens@[hi0 as int]),
    ensures
        ({
            let w = crop_walk(
                tokens@,
                CropWalk {
                    lo: lo0 as int,
                    hi: hi0 as int,
                    lw: lo0 as int,
                    rw: hi0 as int,
                    budget: budget0 as int,
                },
            );
            r.0 as int == w.lw && r.1 as int == w.rw
        }),
        r.0 <= lo0,
        hi0 <= r.1 < tokens@.len(),
        is_word_token(tokens@[r.0 as int]),
        is_word_token(tokens@[r.1 as int]),
{
    let ghost bytes = text.spec_bytes();
    let n = tokens.len();
    let mut lo = lo0;
    let mut hi = hi0;
    let mut lw = lo;
    let mut rw = hi;
    let mut budget = budget0;
    let ghost init = CropWalk {
        lo: lo0 as int,
        hi: hi0 as int,
        lw: lo0 as int,
        rw: hi0 as int,
        budget: budget0 as int,
    };
    let ghost target = crop_walk(tokens@, init);
    while budget > 0 && (lo > 0 || hi < n - 1)
        invariant
            tokens_wf(tokens@, bytes),
            n == tokens@.len(),
            lo <= lw,
            lw <= lo0,
            hi0 <= rw,
            rw <= hi < n,
            lo0 <= hi0 < n,
            is_word_token(tokens@[lw as int]),
            is_word_token(tokens@[rw as int]),
            target == crop_walk(
                tokens@,
                CropWalk {
                    lo: lo as int,
                    hi: hi as int,
                    lw: lw as int,
                    rw: rw as int,
                    budget: budget as int,
                },
            ),
        decreases lo + n - hi,
    {
        proof {
            lemma_crop_walk_unfold(
                tokens@,
                CropWalk {
                    lo: lo as int,
                    hi: hi as int,
                    lw: lw as int,
                    rw: rw as int,
                    budget: budget as int,
                },
            );
        }
        let before_word = lo > 0 && !tokens[lo - 1].is_separator();
        let after_word = hi < n - 1 && !tokens[hi + 1].is_separator();
        if lo > 0 && hi < n - 1 {
            if !before_word && !after_word {
                // both sides face separators: cross them together when alike,
                // else stay behind the hard one
                let kb = match tokens[lo - 1].kind {
                    TokenKind::Separator(SeparatorKind::Hard) => true,
                    _ => false,
                };
                let ka = match tokens[hi + 1].kind {
                    TokenKind::Separator(SeparatorKind::Hard) => true,
                    _ => false,
                };
                if kb == ka {
                    lo -= 1;
                    hi += 1;
                } else if kb {
                    hi += 1;
                } else {
                    lo -= 1;
                }
            } else if before_word && !after_word {
                lo -= 1;
                lw = lo;
                budget -= 1;
            } else if !before_word && after_word {
                hi += 1;
                rw = hi;
                budget -= 1;
            } else {
                lo -= 1;
                lw = lo;
                budget -= 1;
                if budget > 0 {
                    hi += 1;
                    rw = hi;
                    budget -= 1;
                }
            }
        } else if lo > 0 {
            if before_word {
                lo -= 1;
                lw = lo;
                budget -= 1;
            } else {
                lo -= 1;
            }
        } else {
            if after_word {
                hi += 1;
                rw = hi;
                budget -= 1;
            } else {
                hi += 1;
            }
        }
    }
    proof {
        lemma_crop_walk_unfold(
            tokens@,
            CropWalk {
                lo: lo as int,
                hi: hi as int,
                lw: lw as int,
                rw: rw as int,
                budget: budget as int,
            },
        );
    }
    (lw, rw)
}

/// Composing the walk and the snap yields exactly `crop_window_spec`.
proof fn lemma_crop_window_composition(
    tokens: Seq<Token>,
    text_len: int,
    first_m: Match,
    last_m: Match,
    crop: int,
    budget: int,
    lw: int,
    rw: int,
    cbs: int,
    cbe: int,
)
    requires
        budget == (if last_m.last_word - first_m.first_word + 1 >= crop {
            0int
        } else {
            crop - (last_m.last_word - first_m.first_word + 1)
        }),
        ({
            let w = crop_walk(
                tokens,
                CropWalk {
                    lo: first_m.first_token as int,
                    hi: last_m.last_token as int,
                    lw: first_m.first_token as int,
                    rw: last_m.last_token as int,
                    budget: budget,
                },
            );
            lw == w.lw && rw == w.rw
        }),
        cbs == (if exists|k: int| 0 <= k < lw && is_word_token(#[trigger] tokens[k]) {
            tokens[lw].byte_start as int
        } else {
            0int
        }),
        cbe == (if exists|k: int| rw < k < tokens.len() && is_word_token(#[trigger] tokens[k]) {
            tokens[rw].byte_end as int
        } else {
            text_len
        }),
    ensures
        (cbs, cbe) == crop_window_spec(tokens, text_len, first_m, last_m, crop),
{
    reveal(crop_window_spec);
}

/// Snap a walked window `[lw, rw]` of word tokens to byte bounds: a side
/// with no word beyond it extends to the text's edge.
#[verifier::rlimit(100)]
fn snap_window(text: &str, tokens: &Vec<Token>, lw: usize, rw: usize) -> (r: (usize, usize))
    requires
        tokens_wf(tokens@, text.spec_bytes()),
        lw < tokens@.len(),
        rw < tokens@.len(),
    ensures
        boundary(text.spec_bytes(), r.0 as int),
        boundary(text.spec_bytes(), r.1 as int),
        r.1 <= text.spec_bytes().len(),
        r.0 <= tokens@[lw as int].byte_start,
        tokens@[rw as int].byte_end <= r.1,
        r.0 as int == (if exists|k: int| 0 <= k < lw && is_word_token(#[trigger] tokens@[k]) {
            tokens@[lw as int].byte_start as int
        } else {
            0int
        }),
        r.1 as int == (if exists|k: int|
            rw < k < tokens@.len() && is_word_token(#[trigger] tokens@[k]) {
            tokens@[rw as int].byte_end as int
        } else {
            text.spec_bytes().len() as int
        }),
{
    let ghost bytes = text.spec_bytes();
    proof {
        lemma_text_edges(text);
        lemma_token_offsets_ordered(tokens@, bytes, rw as int, tokens@.len() - 1);
    }
    let crop_byte_start = if has_word_before(tokens, lw) {
        tokens[lw].byte_start
    } else {
        0
    };
    let crop_byte_end = if has_word_after(tokens, rw) {
        tokens[rw].byte_end
    } else {
        text_byte_len(text)
    };
    (crop_byte_start, crop_byte_end)
}

/// The crop window around the chosen match interval `[first_i, last_i]`:
/// expand outward from the matched span, counting words against the budget,
/// preferring expansion across soft separators and balancing the two sides.
/// Returns exactly the window that `crop_window_spec` names: its byte bounds,
/// snapped to the text's edges when no word lies beyond it on that side.
#[verifier::rlimit(100)]
fn get_crop_bounds(
    text: &str,
    tokens: &Vec<Token>,
    ms: &Vec<Match>,
    first_i: usize,
    last_i: usize,
    crop_size: usize,
) -> (r: (usize, usize))
    requires
        tokens_wf(tokens@, text.spec_bytes()),
        matches_wf(ms@, tokens@, text.spec_bytes()),
        first_i <= last_i < ms@.len(),
        crop_size >= 1,
    ensures
        boundary(text.spec_bytes(), r.0 as int),
        boundary(text.spec_bytes(), r.1 as int),
        r.1 <= text.spec_bytes().len(),
        r.0 <= match_byte_start(ms@[first_i as int], tokens@),
        match_byte_end(ms@[last_i as int], tokens@) <= r.1,
        (r.0 as int, r.1 as int) == crop_window_spec(
            tokens@,
            text.spec_bytes().len() as int,
            ms@[first_i as int],
            ms@[last_i as int],
            crop_size as int,
        ),
{
    let ghost bytes = text.spec_bytes();
    proof {
        lemma_text_edges(text);
        if first_i < last_i {
            lemma_matches_ordered(ms@, tokens@, bytes, first_i as int, last_i as int);
        }
    }
    let first_m = &ms[first_i];
    let last_m = &ms[last_i];
    // the words already inside the matched span count against the budget
    let span_words = last_m.last_word as i128 - first_m.first_word as i128 + 1;
    let budget: usize = if span_words >= crop_size as i128 {
        0
    } else {
        // fits in usize: it is at most crop_size
        (crop_size as i128 - span_words) as usize
    };
    let ghost span = ms@[last_i as int].last_word - ms@[first_i as int].first_word + 1;
    proof {
        crate::tokens::lemma_word_index_monotone(
            tokens@,
            ms@[first_i as int].first_token as int,
            ms@[first_i as int].last_token as int,
        );
        crate::tokens::lemma_word_index_monotone(
            tokens@,
            ms@[last_i as int].first_token as int,
            ms@[last_i as int].last_token as int,
        );
        assert(span >= 1);
        assert(budget as int == (if span >= crop_size as int {
            0int
        } else {
            crop_size as int - span
        }));
    }
    let (lw, rw) = run_crop_walk(text, tokens, first_m.first_token, last_m.last_token, budget);
    proof {
        lemma_token_offsets_ordered(
            tokens@,
            bytes,
            lw as int,
            ms@[first_i as int].first_token as int,
        );
        lemma_token_offsets_ordered(
            tokens@,
            bytes,
            ms@[last_i as int].last_token as int,
            rw as int,
        );
    }
    let r = snap_window(text, tokens, lw, rw);
    proof {
        lemma_crop_window_composition(
            tokens@,
            bytes.len() as int,
            ms@[first_i as int],
            ms@[last_i as int],
            crop_size as int,
            budget as int,
            lw as int,
            rw as int,
            r.0 as int,
            r.1 as int,
        );
    }
    r
}

/// Byte offset where a match's highlight starts inside the window.
pub open spec fn clamped_start(m: Match, tokens: Seq<Token>, cbs: usize) -> int {
    if match_byte_start(m, tokens) < cbs {
        cbs as int
    } else {
        match_byte_start(m, tokens)
    }
}

/// Byte offset where a match's highlight ends inside the window.
pub open spec fn clamped_end(m: Match, tokens: Seq<Token>, cbe: usize) -> int {
    if match_byte_end(m, tokens) > cbe {
        cbe as int
    } else {
        match_byte_end(m, tokens)
    }
}

/// The interval start after widening: one step left when the crop window
/// partly covers the preceding match.
pub open spec fn ext_first_spec(ms: Seq<Match>, tokens: Seq<Token>, f: int, cbs: int) -> int {
    if f > 0 && cbs < match_byte_end(ms[f - 1], tokens) {
        f - 1
    } else {
        f
    }
}

/// The interval end after widening: one step right when the crop window
/// partly covers the following match.
pub open spec fn ext_last_spec(ms: Seq<Match>, tokens: Seq<Token>, l: int, cbe: int) -> int {
    if l + 1 < ms.len() && match_byte_start(ms[l + 1], tokens) < cbe {
        l + 1
    } else {
        l
    }
}

/// The clamped byte ranges of the matches `[first, last]`, two offsets per
/// match, in order.
#[verifier::opaque]
pub open spec fn emitted_ranges(
    ms: Seq<Match>,
    tokens: Seq<Token>,
    first: int,
    last: int,
    cbs: usize,
    cbe: usize,
) -> Seq<usize>
    decreases last - first + 1,
{
    if first < 0 || last < first || last >= ms.len() {
        Seq::empty()
    } else {
        seq![
            clamped_start(ms[first], tokens, cbs) as usize,
            clamped_end(ms[first], tokens, cbe) as usize,
        ] + emitted_ranges(ms, tokens, first + 1, last, cbs, cbe)
    }
}

/// One unfolding step of `emitted_ranges`.
proof fn lemma_emitted_ranges_unfold(
    ms: Seq<Match>,
    tokens: Seq<Token>,
    first: int,
    last: int,
    cbs: usize,
    cbe: usize,
)
    ensures
        emitted_ranges(ms, tokens, first, last, cbs, cbe) == (if first < 0 || last < first || last
            >= ms.len() {
            Seq::<usize>::empty()
        } else {
            seq![
                clamped_start(ms[first], tokens, cbs) as usize,
                clamped_end(ms[first], tokens, cbe) as usize,
            ] + emitted_ranges(ms, tokens, first + 1, last, cbs, cbe)
        }),
{
    reveal(emitted_ranges);
}

/// The full offset list of a highlighted window: the clamped ranges of the
/// widened interval, with the window start prepended when a plain segment
/// leads and the window end appended when one trails.
#[verifier::opaque]
pub open spec fn window_indexes_spec(
    ms: Seq<Match>,
    tokens: Seq<Token>,
    f: int,
    l: int,
    cbs: usize,
    cbe: usize,
) -> Seq<usize> {
    let fe = ext_first_spec(ms, tokens, f, cbs as int);
    let le = ext_last_spec(ms, tokens, l, cbe as int);
    let core = emitted_ranges(ms, tokens, fe, le, cbs, cbe);
    let led = if (cbs as int) < core[0] {
        seq![cbs] + core
    } else {
        core
    };
    if led[led.len() - 1] < cbe {
        led.push(cbe)
    } else {
        led
    }
}

/// Whether a highlighted window's emission starts inside a highlight: its
/// first clamped range begins at the window start.
#[verifier::opaque]
pub open spec fn window_toggle_spec(
    ms: Seq<Match>,
    tokens: Seq<Token>,
    f: int,
    l: int,
    cbs: usize,
    cbe: usize,
) -> bool {
    let fe = ext_first_spec(ms, tokens, f, cbs as int);
    clamped_start(ms[fe], tokens, cbs) == cbs as int
}

/// Composing the widening, the emitted ranges and the edge joins yields
/// exactly the window offset list and its toggle.
proof fn lemma_window_indexes_composition(
    ms: Seq<Match>,
    tokens: Seq<Token>,
    f: int,
    l: int,
    cbs: usize,
    cbe: usize,
    fe: int,
    le: int,
    core: Seq<usize>,
    out: Seq<usize>,
    toggle: bool,
)
    requires
        fe == ext_first_spec(ms, tokens, f, cbs as int),
        le == ext_last_spec(ms, tokens, l, cbe as int),
        core == emitted_ranges(ms, tokens, fe, le, cbs, cbe),
        core.len() >= 1,
        core[0] == clamped_start(ms[fe], tokens, cbs),
        out == ({
            let led = if (cbs as int) < core[0] {
                seq![cbs] + core
            } else {
                core
            };
            if led[led.len() - 1] < cbe {
                led.push(cbe)
            } else {
                led
            }
        }),
        toggle == (core[0] == cbs),
    ensures
        out == window_indexes_spec(ms, tokens, f, l, cbs, cbe),
        toggle == window_toggle_spec(ms, tokens, f, l, cbs, cbe),
{
    reveal(window_indexes_spec);
    reveal(window_toggle_spec);
}

/// The clamped byte range of match `i` inside the window, with its place
/// among its neighbours.
#[verifier::rlimit(100)]
fn clamped_pair(
    text: &str,
    tokens: &Vec<Token>,
    ms: &Vec<Match>,
    first: usize,
    last: usize,
    i: usize,
    cbs: usize,
    cbe: usize,
) -> (r: (usize, usize))
    requires
        tokens_wf(tokens@, text.spec_bytes()),
        matches_wf(ms@, tokens@, text.spec_bytes()),
        first <= i <= last < ms@.len(),
        boundary(text.spec_bytes(), cbs as int),
        boundary(text.spec_bytes(), cbe as int),
        cbs <= cbe <= text.spec_bytes().len(),
        cbs < match_byte_end(ms@[first as int], tokens@),
        match_byte_start(ms@[last as int], tokens@) < cbe,
    ensures
        r.0 == clamped_start(ms@[i as int], tokens@, cbs),
        r.1 == clamped_end(ms@[i as int], tokens@, cbe),
        cbs <= r.0 <= r.1 <= cbe,
        boundary(text.spec_bytes(), r.0 as int),
        boundary(text.spec_bytes(), r.1 as int),
        i > first ==> clamped_end(ms@[(i - 1) as int], tokens@, cbe) <= r.0,
{
    let ghost bytes = text.spec_bytes();
    proof {
        if first < i {
            lemma_matches_ordered(ms@, tokens@, bytes, first as int, i as int);
            lemma_matches_ordered(ms@, tokens@, bytes, (i - 1) as int, i as int);
        }
        if i < last {
            lemma_matches_ordered(ms@, tokens@, bytes, i as int, last as int);
        }
    }
    let m = &ms[i];
    let s_raw = tokens[m.first_token].byte_start;
    let e_raw = s_raw + m.byte_len;
    let s = if s_raw < cbs {
        cbs
    } else {
        s_raw
    };
    let e = if e_raw > cbe {
        cbe
    } else {
        e_raw
    };
    (s, e)
}

/// Emit the clamped byte ranges of the matches `[first, last]`, in order:
/// exactly `emitted_ranges`, a well-formed run of offsets inside the window.
#[verifier::rlimit(100)]
fn emit_match_ranges(
    text: &str,
    tokens: &Vec<Token>,
    ms: &Vec<Match>,
    first: usize,
    last: usize,
    cbs: usize,
    cbe: usize,
) -> (indexes: Vec<usize>)
    requires
        tokens_wf(tokens@, text.spec_bytes()),
        matches_wf(ms@, tokens@, text.spec_bytes()),
        first <= last < ms@.len(),
        boundary(text.spec_bytes(), cbs as int),
        boundary(text.spec_bytes(), cbe as int),
        cbs <= cbe <= text.spec_bytes().len(),
        cbs < match_byte_end(ms@[first as int], tokens@),
        match_byte_start(ms@[last as int], tokens@) < cbe,
    ensures
        indexes@ == emitted_ranges(ms@, tokens@, first as int, last as int, cbs, cbe),
        indexes@.len() >= 2,
        indexes@[0] == clamped_start(ms@[first as int], tokens@, cbs),
        indexes@[indexes@.len() - 1] == clamped_end(ms@[last as int], tokens@, cbe),
        forall|k: int|
            0 <= k < indexes@.len() ==> boundary(text.spec_bytes(), (#[trigger] indexes@[k]) as int)
                && cbs <= indexes@[k] <= cbe,
        forall|k: int|
            #![trigger indexes@[k]]
            1 <= k < indexes@.len() ==> indexes@[k - 1] <= indexes@[k],
    decreases last - first,
{
    let ghost bytes = text.spec_bytes();
    proof {
        lemma_emitted_ranges_unfold(ms@, tokens@, first as int, last as int, cbs, cbe);
        lemma_emitted_ranges_unfold(ms@, tokens@, first + 1 as int, last as int, cbs, cbe);
    }
    let (sv, ev) = clamped_pair(text, tokens, ms, first, last, first, cbs, cbe);
    let mut indexes: Vec<usize> = Vec::new();
    indexes.push(sv);
    indexes.push(ev);
    if first < last {
        proof {
            lemma_matches_ordered(ms@, tokens@, bytes, first as int, first + 1 as int);
            if first + 1 < last {
                lemma_matches_ordered(ms@, tokens@, bytes, first + 1 as int, last as int);
            }
        }
        let ghost pre = indexes@;
        let mut rest = emit_match_ranges(text, tokens, ms, first + 1, last, cbs, cbe);
        let ghost rest_g = rest@;
        indexes.append(&mut rest);
        proof {
            assert(indexes@ =~= pre + rest_g);
            assert(indexes@ =~= emitted_ranges(ms@, tokens@, first as int, last as int, cbs, cbe));
            assert forall|k: int| 0 <= k < indexes@.len() implies boundary(
                bytes,
                (#[trigger] indexes@[k]) as int,
            ) && cbs <= indexes@[k] <= cbe by {
                if k >= 2 {
                    assert(indexes@[k] == rest_g[k - 2]);
                }
            }
            assert forall|k: int| #![trigger indexes@[k]] 1 <= k < indexes@.len() implies indexes@[k
                - 1] <= indexes@[k] by {
                if k > 2 {
                    assert(indexes@[k] == rest_g[k - 2]);
                    assert(indexes@[k - 1] == rest_g[k - 3]);
                } else if k == 2 {
                    assert(indexes@[k] == rest_g[0]);
                    assert(rest_g[0] == clamped_start(ms@[(first + 1) as int], tokens@, cbs));
                }
            }
        }
    } else {
        proof {
            assert(indexes@ =~= emitted_ranges(ms@, tokens@, first as int, last as int, cbs, cbe));
        }
    }
    indexes
}

/// Widen the interval start by one match when the crop window partly covers
/// the preceding match.
#[verifier::rlimit(100)]
fn extend_left(
    text: &str,
    tokens: &Vec<Token>,
    ms: &Vec<Match>,
    f: usize,
    cbs: usize,
) -> (r: usize)
    requires
        tokens_wf(tokens@, text.spec_bytes()),
        matches_wf(ms@, tokens@, text.spec_bytes()),
        f < ms@.len(),
        cbs <= match_byte_start(ms@[f as int], tokens@),
    ensures
        r <= f,
        cbs < match_byte_end(ms@[r as int], tokens@),
        r as int == ext_first_spec(ms@, tokens@, f as int, cbs as int),
{
    if f > 0 {
        let prev_end = tokens[ms[f - 1].first_token].byte_start + ms[f - 1].byte_len;
        if cbs < prev_end {
            return f - 1;
        }
    }
    f
}

/// Widen the interval end by one match when the crop window partly covers
/// the following match.
#[verifier::rlimit(100)]
fn extend_right(
    text: &str,
    tokens: &Vec<Token>,
    ms: &Vec<Match>,
    l: usize,
    cbe: usize,
) -> (r: usize)
    requires
        tokens_wf(tokens@, text.spec_bytes()),
        matches_wf(ms@, tokens@, text.spec_bytes()),
        l < ms@.len(),
        match_byte_end(ms@[l as int], tokens@) <= cbe,
    ensures
        l <= r < ms@.len(),
        match_byte_start(ms@[r as int], tokens@) < cbe,
        r as int == ext_last_spec(ms@, tokens@, l as int, cbe as int),
{
    let n = ms.len();
    if l < n - 1 {
        let next_start = tokens[ms[l + 1].first_token].byte_start;
        if next_start < cbe {
            return l + 1;
        }
    }
    l
}

/// Prepend the window start when the first range begins after it; the
/// returned toggle says whether emission starts inside a highlight.
#[verifier::rlimit(100)]
fn with_lead(core: Vec<usize>, cbs: usize, text: &str) -> (r: (Vec<usize>, bool))
    requires
        core@.len() >= 1,
        boundary(text.spec_bytes(), cbs as int),
        forall|k: int|
            0 <= k < core@.len() ==> boundary(text.spec_bytes(), (#[trigger] core@[k]) as int)
                && cbs <= core@[k] <= text.spec_bytes().len(),
        forall|k: int| #![trigger core@[k]] 1 <= k < core@.len() ==> core@[k - 1] <= core@[k],
    ensures
        r.0@ == (if (cbs as int) < core@[0] {
            seq![cbs] + core@
        } else {
            core@
        }),
        r.0@.len() >= core@.len(),
        r.0@[0] == cbs,
        r.0@[r.0@.len() - 1] == core@[core@.len() - 1],
        r.1 == (core@[0] == cbs),
        forall|k: int|
            0 <= k < r.0@.len() ==> boundary(text.spec_bytes(), (#[trigger] r.0@[k]) as int)
                && cbs <= r.0@[k] <= text.spec_bytes().len(),
        forall|k: int| #![trigger r.0@[k]] 1 <= k < r.0@.len() ==> r.0@[k - 1] <= r.0@[k],
{
    let ghost bytes = text.spec_bytes();
    let ghost core_g = core@;
    let s0 = core[0];
    let toggle = s0 == cbs;
    let mut indexes: Vec<usize> = Vec::new();
    if cbs < s0 {
        indexes.push(cbs);
    }
    let ghost lead = indexes@;
    let mut rest = core;
    indexes.append(&mut rest);
    proof {
        assert(indexes@ =~= lead + core_g);
        assert forall|k: int| 0 <= k < indexes@.len() implies boundary(
            bytes,
            (#[trigger] indexes@[k]) as int,
        ) && cbs <= indexes@[k] <= bytes.len() by {
            if k >= lead.len() {
                assert(indexes@[k] == core_g[k - lead.len()]);
            }
        }
        assert forall|k: int| #![trigger indexes@[k]] 1 <= k < indexes@.len() implies indexes@[k
            - 1] <= indexes@[k] by {
            if k > lead.len() {
                assert(indexes@[k] == core_g[k - lead.len()]);
                assert(indexes@[k - 1] == core_g[k - 1 - lead.len()]);
            } else if k == lead.len() && k >= 1 {
                assert(indexes@[k] == core_g[0]);
            }
        }
    }
    (indexes, toggle)
}

/// Append the window end when the last offset falls short of it.
#[verifier::rlimit(100)]
fn with_trail(v: Vec<usize>, cbe: usize, text: &str) -> (r: Vec<usize>)
    requires
        v@.len() >= 1,
        boundary(text.spec_bytes(), cbe as int),
        cbe <= text.spec_bytes().len(),
        v@[v@.len() - 1] <= cbe,
        forall|k: int|
            0 <= k < v@.len() ==> boundary(text.spec_bytes(), (#[trigger] v@[k]) as int) && v@[k]
                <= text.spec_bytes().len(),
        forall|k: int| #![trigger v@[k]] 1 <= k < v@.len() ==> v@[k - 1] <= v@[k],
    ensures
        r@ == (if v@[v@.len() - 1] < cbe {
            v@.push(cbe)
        } else {
            v@
        }),
        r@.len() >= v@.len(),
        r@[0] == v@[0],
        r@[r@.len() - 1] == cbe,
        forall|k: int|
            0 <= k < r@.len() ==> boundary(text.spec_bytes(), (#[trigger] r@[k]) as int) && r@[k]
                <= text.spec_bytes().len(),
        forall|k: int| #![trigger r@[k]] 1 <= k < r@.len() ==> r@[k - 1] <= r@[k],
{
    let ghost bytes = text.spec_bytes();
    let ghost mid = v@;
    let mut indexes = v;
    let last_e = indexes[indexes.len() - 1];
    if last_e < cbe {
        indexes.push(cbe);
        proof {
            assert(indexes@ =~= mid.push(cbe));
            assert forall|k: int| 0 <= k < indexes@.len() implies boundary(
                bytes,
                (#[trigger] indexes@[k]) as int,
            ) && indexes@[k] <= bytes.len() by {
                if k < mid.len() {
                    assert(indexes@[k] == mid[k]);
                }
            }
            assert forall|k: int| #![trigger indexes@[k]] 1 <= k < indexes@.len() implies indexes@[k
                - 1] <= indexes@[k] by {
                if k < mid.len() {
                    assert(indexes@[k] == mid[k]);
                    assert(indexes@[k - 1] == mid[k - 1]);
                }
            }
        }
    }
    indexes
}

/// Join the clamped match ranges with the window edges: prepend the window
/// start when a plain segment leads, append the window end when one trails.
/// The toggle says whether emission starts inside a highlight.
fn assemble_indexes(core: Vec<usize>, cbs: usize, cbe: usize, text: &str) -> (r: (Vec<usize>, bool))
    requires
        core@.len() >= 2,
        boundary(text.spec_bytes(), cbs as int),
        boundary(text.spec_bytes(), cbe as int),
        cbs <= cbe <= text.spec_bytes().len(),
        forall|k: int|
            0 <= k < core@.len() ==> boundary(text.spec_bytes(), (#[trigger] core@[k]) as int)
                && cbs <= core@[k] <= cbe,
        forall|k: int| #![trigger core@[k]] 1 <= k < core@.len() ==> core@[k - 1] <= core@[k],
    ensures
        indexes_wf(r.0@, text.spec_bytes()),
        r.0@[0] == cbs,
        r.0@[r.0@.len() - 1] == cbe,
        r.1 == (core@[0] == cbs),
        r.0@ == ({
            let led = if (cbs as int) < core@[0] {
                seq![cbs] + core@
            } else {
                core@
            };
            if led[led.len() - 1] < cbe {
                led.push(cbe)
            } else {
                led
            }
        }),
{
    let ghost n0 = core@.len();
    let (led, toggle) = with_lead(core, cbs, text);
    let out = with_trail(led, cbe, text);
    (out, toggle)
}

/// Build the offset list for the matches of `[f, l]` inside the crop window
/// `[cbs, cbe]`: the window edges around the clamped byte ranges of the
/// matches the window covers.
#[verifier::rlimit(100)]
fn build_indexes(
    text: &str,
    tokens: &Vec<Token>,
    ms: &Vec<Match>,
    f: usize,
    l: usize,
    cbs: usize,
    cbe: usize,
) -> (r: (Vec<usize>, bool))
    requires
        tokens_wf(tokens@, text.spec_bytes()),
        matches_wf(ms@, tokens@, text.spec_bytes()),
        f <= l < ms@.len(),
        boundary(text.spec_bytes(), cbs as int),
        boundary(text.spec_bytes(), cbe as int),
        cbe <= text.spec_bytes().len(),
        cbs <= match_byte_start(ms@[f as int], tokens@),
        match_byte_end(ms@[l as int], tokens@) <= cbe,
    ensures
        indexes_wf(r.0@, text.spec_bytes()),
        r.0@[0] == cbs,
        r.0@[r.0@.len() - 1] == cbe,
        r.0@ == window_indexes_spec(ms@, tokens@, f as int, l as int, cbs, cbe),
        r.1 == window_toggle_spec(ms@, tokens@, f as int, l as int, cbs, cbe),
{
    let ghost bytes = text.spec_bytes();
    proof {
        if f < l {
            lemma_matches_ordered(ms@, tokens@, bytes, f as int, l as int);
        }
        assert(cbs <= cbe);
    }
    let first = extend_left(text, tokens, ms, f, cbs);
    let last = extend_right(text, tokens, ms, l, cbe);
    proof {
        if first < last {
            lemma_matches_ordered(ms@, tokens@, bytes, first as int, last as int);
        }
    }
    let core = emit_match_ranges(text, tokens, ms, first, last, cbs, cbe);
    let ghost core_g = core@;
    let r = assemble_indexes(core, cbs, cbe, text);
    proof {
        lemma_window_indexes_composition(
            ms@,
            tokens@,
            f as int,
            l as int,
            cbs,
            cbe,
            first as int,
            last as int,
            core_g,
            r.0@,
            r.1,
        );
    }
    r
}

/// The bare two-offset window, without highlighting.
fn bare_window_bounds(text: &str, cbs: usize, cbe: usize) -> (r: MatchBounds)
    requires
        boundary(text.spec_bytes(), cbs as int),
        boundary(text.spec_bytes(), cbe as int),
        cbs <= cbe <= text.spec_bytes().len(),
    ensures
        bounds_wf(r, text.spec_bytes()),
        match r {
            MatchBounds::Formatted { highlight_toggle, indexes } => !highlight_toggle
                && indexes@.len() == 2 && indexes@[0] == cbs && indexes@[1] == cbe,
            MatchBounds::Full => false,
        },
{
    let indexes = vec![cbs, cbe];
    MatchBounds::Formatted { highlight_toggle: false, indexes }
}

/// Match bounds for a positive crop when at least one match exists: pick the
/// best interval, derive the crop window, and emit either the highlight
/// offsets inside it or the bare window.
#[verifier::rlimit(100)]
fn crop_bounds_with_matches(
    text: &str,
    tokens: &Vec<Token>,
    matches: &Vec<Match>,
    crop_size: usize,
    highlight: bool,
) -> (r: MatchBounds)
    requires
        tokens_wf(tokens@, text.spec_bytes()),
        matches_wf(matches@, tokens@, text.spec_bytes()),
        matches@.len() > 0,
        crop_size >= 1,
    ensures
        bounds_wf(r, text.spec_bytes()),
        r is Formatted,
        match r {
            MatchBounds::Formatted { highlight_toggle, indexes } => ({
                let fl = best_interval_spec(matches@, crop_size as int);
                let w = crop_window_spec(
                    tokens@,
                    text.spec_bytes().len() as int,
                    matches@[fl.0],
                    matches@[fl.1],
                    crop_size as int,
                );
                if highlight {
                    &&& indexes@ == window_indexes_spec(
                        matches@,
                        tokens@,
                        fl.0,
                        fl.1,
                        w.0 as usize,
                        w.1 as usize,
                    )
                    &&& highlight_toggle == window_toggle_spec(
                        matches@,
                        tokens@,
                        fl.0,
                        fl.1,
                        w.0 as usize,
                        w.1 as usize,
                    )
                } else {
                    &&& !highlight_toggle
                    &&& indexes@ == seq![w.0 as usize, w.1 as usize]
                }
            }),
            MatchBounds::Full => false,
        },
{
    let ghost bytes = text.spec_bytes();
    let (f, l) = get_best_match_interval(matches, crop_size, Ghost(tokens@), Ghost(bytes));
    let (cbs, cbe) = get_crop_bounds(text, tokens, matches, f, l, crop_size);
    proof {
        assert(match_byte_start(matches@[f as int], tokens@) < match_byte_end(
            matches@[f as int],
            tokens@,
        ));
        if f < l {
            lemma_matches_ordered(matches@, tokens@, bytes, f as int, l as int);
        }
    }
    if highlight {
        let (indexes, toggle) = build_indexes(text, tokens, matches, f, l, cbs, cbe);
        MatchBounds::Formatted { highlight_toggle: toggle, indexes }
    } else {
        let r = bare_window_bounds(text, cbs, cbe);
        proof {
            match &r {
                MatchBounds::Formatted { highlight_toggle, indexes } => {
                    assert(indexes@ =~= seq![cbs, cbe]);
                },
                MatchBounds::Full => {},
            }
        }
        r
    }
}

/// The crop budget a request carries: zero when no crop is asked or the
/// crop is zero (which means no crop).
pub open spec fn crop_of(opts: FormatOptions) -> int {
    match opts.crop {
        Some(c) => c as int,
        None => 0,
    }
}

/// Compute the match bounds of a text under the given formatting request.
/// The result is `Full` exactly when no positive crop is asked and either no
/// highlight is asked or there is no match. A crop with no matches yields the
/// window `[0, no_match_crop_end(..)]`; a crop without highlighting yields
/// the bare two-offset window; in every formatted case the offset list is
/// well formed over the text's bytes.
#[verifier::rlimit(100)]
pub fn get_match_bounds(
    text: &str,
    tokens: &Vec<Token>,
    matches: &Vec<Match>,
    format_options: FormatOptions,
) -> (r: MatchBounds)
    requires
        tokens_wf(tokens@, text.spec_bytes()),
        matches_wf(matches@, tokens@, text.spec_bytes()),
    ensures
        bounds_wf(r, text.spec_bytes()),
        r is Full <==> (crop_of(format_options) == 0 && (!format_options.highlight
            || matches@.len() == 0)),
        matches@.len() == 0 && crop_of(format_options) > 0 ==> match r {
            MatchBounds::Formatted { highlight_toggle, indexes } => !highlight_toggle && indexes@
                == seq![
                0usize,
                no_match_crop_end(
                    tokens@,
                    text.spec_bytes().len() as int,
                    0,
                    crop_of(format_options),
                    0,
                ) as usize,
            ],
            MatchBounds::Full => false,
        },
        crop_of(format_options) > 0 && matches@.len() > 0 ==> match r {
            MatchBounds::Formatted { highlight_toggle, indexes } => ({
                let fl = best_interval_spec(matches@, crop_of(format_options));
                let w = crop_window_spec(
                    tokens@,
                    text.spec_bytes().len() as int,
                    matches@[fl.0],
                    matches@[fl.1],
                    crop_of(format_options),
                );
                if format_options.highlight {
                    &&& indexes@ == window_indexes_spec(
                        matches@,
                        tokens@,
                        fl.0,
                        fl.1,
                        w.0 as usize,
                        w.1 as usize,
                    )
                    &&& highlight_toggle == window_toggle_spec(
                        matches@,
                        tokens@,
                        fl.0,
                        fl.1,
                        w.0 as usize,
                        w.1 as usize,
                    )
                } else {
                    &&& !highlight_toggle
                    &&& indexes@ == seq![w.0 as usize, w.1 as usize]
                }
            }),
            MatchBounds::Full => false,
        },
        crop_of(format_options) == 0 && format_options.highlight && matches@.len() > 0 ==> match r {
            MatchBounds::Formatted { highlight_toggle, indexes } => ({
                &&& indexes@ == window_indexes_spec(
                    matches@,
                    tokens@,
                    0,
                    matches@.len() - 1,
                    0,
                    text.spec_bytes().len() as usize,
                )
                &&& highlight_toggle == window_toggle_spec(
                    matches@,
                    tokens@,
                    0,
                    matches@.len() - 1,
                    0,
                    text.spec_bytes().len() as usize,
                )
            }),
            MatchBounds::Full => false,
        },
{
    let ghost bytes = text.spec_bytes();
    let crop_size: usize = match format_options.crop {
        Some(c) => c,
        None => 0,
    };
    if crop_size > 0 {
        if matches.len() == 0 {
            let cbe = get_crop_bounds_with_no_matches(text, tokens, crop_size);
            proof {
                lemma_text_edges(text);
            }
            let indexes = vec![0, cbe];
            proof {
                assert(indexes@ =~= seq![
                    0usize,
                    no_match_crop_end(
                        tokens@,
                        text.spec_bytes().len() as int,
                        0,
                        crop_of(format_options),
                        0,
                    ) as usize,
                ]);
            }
            return MatchBounds::Formatted { highlight_toggle: false, indexes };
        }
        return crop_bounds_with_matches(text, tokens, matches, crop_size, format_options.highlight);
    }
    if format_options.highlight && matches.len() > 0 {
        let n = text_byte_len(text);
        proof {
            lemma_text_edges(text);
            lemma_token_offsets_ordered(
                tokens@,
                bytes,
                matches@[matches@.len() - 1].last_token as int,
                tokens@.len() - 1,
            );
        }
        let (indexes, toggle) = build_indexes(text, tokens, matches, 0, matches.len() - 1, 0, n);
        return MatchBounds::Formatted { highlight_toggle: toggle, indexes };
    }
    MatchBounds::Full
}



/// The byte offset where the no-match crop window ends: walking the tokens
/// from `i` with `budget` words left to take and `cur` the window end so
/// far, the end of the last word the budget admits, or `text_len` when the
/// walk exhausts the run (the window then reaches the text's end).
#[verifier::opaque]
pub open spec fn no_match_crop_end(
    tokens: Seq<Token>,
    text_len: int,
    i: int,
    budget: int,
    cur: int,
) -> int
    decreases tokens.len() - i,
{
    if i < 0 || i >= tokens.len() {
        text_len
    } else if is_word_token(tokens[i]) {
        if budget <= 0 {
            cur
        } else {
            no_match_crop_end(tokens, text_len, i + 1, budget - 1, tokens[i].byte_end as int)
        }
    } else {
        no_match_crop_end(tokens, text_len, i + 1, budget, cur)
    }
}

/// One unfolding step of `no_match_crop_end`.
proof fn lemma_no_match_crop_end_unfold(
    tokens: Seq<Token>,
    text_len: int,
    i: int,
    budget: int,
    cur: int,
)
    requires
        0 <= i <= tokens.len(),
    ensures
        no_match_crop_end(tokens, text_len, i, budget, cur) == (if i >= tokens.len() {
            text_len
        } else if is_word_token(tokens[i]) {
            if budget <= 0 {
                cur
            } else {
                no_match_crop_end(tokens, text_len, i + 1, budget - 1, tokens[i].byte_end as int)
            }
        } else {
            no_match_crop_end(tokens, text_len, i + 1, budget, cur)
        }),
{
    reveal(no_match_crop_end);
}

/// The walk's result never falls below the window end reached so far.
proof fn lemma_no_match_crop_end_lower(
    tokens: Seq<Token>,
    bytes: Seq<u8>,
    i: int,
    budget: int,
    cur: int,
)
    requires
        tokens_wf(tokens, bytes),
        0 <= i <= tokens.len(),
        cur <= bytes.len(),
        i < tokens.len() ==> cur <= tokens[i].byte_end,
    ensures
        cur <= no_match_crop_end(tokens, bytes.len() as int, i, budget, cur) <= bytes.len(),
    decreases tokens.len() - i,
{
    reveal(no_match_crop_end);
    if i < tokens.len() {
        if is_word_token(tokens[i]) && budget > 0 {
            lemma_no_match_crop_end_lower(tokens, bytes, i + 1, budget - 1, tokens[i].byte_end as int);
        } else if !is_word_token(tokens[i]) {
            lemma_no_match_crop_end_lower(tokens, bytes, i + 1, budget, cur);
        }
    }
}

/// A larger remaining budget, from a window end no smaller, ends the window
/// no earlier.
proof fn lemma_no_match_crop_end_le(
    tokens: Seq<Token>,
    bytes: Seq<u8>,
    i: int,
    b1: int,
    b2: int,
    cur1: int,
    cur2: int,
)
    requires
        tokens_wf(tokens, bytes),
        0 <= i <= tokens.len(),
        b1 <= b2,
        cur1 <= cur2 <= bytes.len(),
        i < tokens.len() ==> cur2 <= tokens[i].byte_end,
    ensures
        no_match_crop_end(tokens, bytes.len() as int, i, b1, cur1) <= no_match_crop_end(
            tokens,
            bytes.len() as int,
            i,
            b2,
            cur2,
        ),
    decreases tokens.len() - i,
{
    reveal(no_match_crop_end);
    if i < tokens.len() {
        if is_word_token(tokens[i]) {
            if b1 <= 0 {
                if b2 > 0 {
                    lemma_no_match_crop_end_lower(
                        tokens,
                        bytes,
                        i + 1,
                        b2 - 1,
                        tokens[i].byte_end as int,
                    );
                }
            } else {
                lemma_no_match_crop_end_le(
                    tokens,
                    bytes,
                    i + 1,
                    b1 - 1,
                    b2 - 1,
                    tokens[i].byte_end as int,
                    tokens[i].byte_end as int,
                );
            }
        } else {
            lemma_no_match_crop_end_le(tokens, bytes, i + 1, b1, b2, cur1, cur2);
        }
    }
}

/// Law (for the crop of a text without matches): enlarging the crop budget
/// never moves the window's end backward, so the returned window never
/// shrinks.
pub proof fn lemma_no_match_crop_monotone(tokens: Seq<Token>, bytes: Seq<u8>, c1: int, c2: int)
    requires
        tokens_wf(tokens, bytes),
        0 <= c1 <= c2,
    ensures
        no_match_crop_end(tokens, bytes.len() as int, 0, c1, 0) <= no_match_crop_end(
            tokens,
            bytes.len() as int,
            0,
            c2,
            0,
        ),
{
    lemma_no_match_crop_end_le(tokens, bytes, 0, c1, c2, 0, 0);
}

} // verus!
