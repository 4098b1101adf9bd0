//! The best-interval selector.
//!
//! Given the matches in token order and a crop budget in words, choose the
//! contiguous run of matches whose score is highest under the constraint that
//! the run spans fewer than `crop_size` words. Scores compare
//! lexicographically: first the number of distinct user-query positions
//! covered (overlapping query ranges counted once), then the negated word
//! distance between neighbouring matches (each gap capped at seven), then the
//! count of matches that continue the query order (the first always does); a
//! phrase contributes its internal word gaps to both of the last two
//! components. Ties keep the earliest interval.

use vstd::prelude::*;

use crate::matching_words::{lemma_matches_ordered, match_wf, matches_wf, Match};
use crate::tokens::{lemma_word_index_monotone, tokens_wf, Token};

verus! {

/// The query range of a match, normalized so the start is not after the end.
pub open spec fn range_of(m: Match) -> (u16, u16) {
    if m.position.start <= m.position.end {
        (m.position.start, m.position.end)
    } else {
        (m.position.end, m.position.start)
    }
}

/// The query ranges of the matches `ms[f..=l]`, in match order.
pub open spec fn window_ranges(ms: Seq<Match>, f: int, l: int) -> Seq<(u16, u16)> {
    Seq::new(
        if f <= l {
            (l - f + 1) as nat
        } else {
            0
        },
        |k: int| range_of(ms[f + k]),
    )
}

/// Insert a range into a list sorted by start, after any equal start.
pub open spec fn insert_sorted(s: Seq<(u16, u16)>, r: (u16, u16)) -> Seq<(u16, u16)>
    decreases s.len(),
{
    if s.len() == 0 {
        seq![r]
    } else if s[0].0 <= r.0 {
        seq![s[0]] + insert_sorted(s.drop_first(), r)
    } else {
        seq![r] + s
    }
}

/// The list sorted by range start, by repeated insertion.
pub open spec fn sort_by_start(s: Seq<(u16, u16)>) -> Seq<(u16, u16)>
    decreases s.len(),
{
    if s.len() == 0 {
        Seq::empty()
    } else {
        insert_sorted(sort_by_start(s.drop_first()), s[0])
    }
}

/// Sweep a start-sorted range list, merging overlapping or adjacent ranges
/// into blocks `[cs, ce]` and summing the widths of the closed blocks into
/// `acc`; the pending block's width is added at the end.
pub open spec fn merge_sweep(s: Seq<(u16, u16)>, j: int, cs: int, ce: int, acc: int) -> int
    decreases s.len() - j,
{
    if j < 0 || j >= s.len() {
        acc + if ce >= cs {
            ce - cs + 1
        } else {
            0
        }
    } else {
        let p = s[j];
        if p.0 <= ce + 1 {
            let ce1 = if p.1 > ce {
                p.1 as int
            } else {
                ce
            };
            let ce2 = if ce1 < cs {
                cs
            } else {
                ce1
            };
            merge_sweep(s, j + 1, cs, ce2, acc)
        } else {
            let acc1 = acc + if ce >= cs {
                ce - cs + 1
            } else {
                0
            };
            merge_sweep(s, j + 1, p.0 as int, p.1 as int, acc1)
        }
    }
}

/// The uniqueness component of `ms[f..=l]`: the sum of the widths of the
/// query-position ranges covered, with overlapping or adjacent ranges merged
/// (sweeping them in query-position order).
pub open spec fn uniqueness_score_spec(ms: Seq<Match>, f: int, l: int) -> int {
    let s = sort_by_start(window_ranges(ms, f, l));
    if s.len() == 0 {
        0
    } else {
        merge_sweep(s, 1, s[0].0 as int, s[0].1 as int, 0)
    }
}

/// `insert_sorted` places the new range exactly at the first position whose
/// start exceeds the new range's.
proof fn lemma_insert_sorted_at(s: Seq<(u16, u16)>, r: (u16, u16), pos: int)
    requires
        0 <= pos <= s.len(),
        forall|k: int| 0 <= k < pos ==> (#[trigger] s[k]).0 <= r.0,
        pos < s.len() ==> s[pos].0 > r.0,
    ensures
        insert_sorted(s, r) == s.insert(pos, r),
    decreases pos,
{
    if s.len() == 0 {
        assert(insert_sorted(s, r) =~= s.insert(0, r));
    } else if pos == 0 {
        assert(insert_sorted(s, r) =~= s.insert(0, r));
    } else {
        lemma_insert_sorted_at(s.drop_first(), r, pos - 1);
        assert(insert_sorted(s, r) =~= s.insert(pos, r));
    }
}

/// Insertion sort of query ranges by their start, equal to `sort_by_start`.
#[verifier::rlimit(100)]
fn sort_ranges(ranges: &mut Vec<(u16, u16)>)
    ensures
        final(ranges)@ == sort_by_start(old(ranges)@),
{
    let ghost orig = ranges@;
    let mut sorted: Vec<(u16, u16)> = Vec::new();
    proof {
        assert(ranges@ =~= orig.take(ranges@.len() as int));
        assert(orig.skip(orig.len() as int) =~= Seq::<(u16, u16)>::empty());
    }
    while ranges.len() > 0
        invariant
            ranges@.len() <= orig.len(),
            ranges@ == orig.take(ranges@.len() as int),
            sorted@ == sort_by_start(orig.skip(ranges@.len() as int)),
            forall|i: int, j: int|
                0 <= i < j < sorted@.len() ==> (#[trigger] sorted@[i]).0
                    <= (#[trigger] sorted@[j]).0,
        decreases ranges@.len(),
    {
        let ghost k = ranges@.len() as int;
        let ghost pre_pop = ranges@;
        let r = ranges.pop().unwrap();
        proof {
            assert(1 <= k <= orig.len());
            assert(pre_pop == orig.take(k));
            assert(orig.take(k)[k - 1] == orig[k - 1]);
            assert(r == orig[k - 1]);
            assert(ranges@ =~= orig.take(k - 1)) by {
                assert(ranges@ == pre_pop.subrange(0, k - 1));
            }
            assert(orig.skip(k - 1).drop_first() =~= orig.skip(k));
            assert(orig.skip(k - 1)[0] == orig[k - 1]);
        }
        let mut pos: usize = 0;
        while pos < sorted.len() && sorted[pos].0 <= r.0
            invariant
                pos <= sorted@.len(),
                forall|i: int| 0 <= i < pos ==> (#[trigger] sorted@[i]).0 <= r.0,
                forall|i: int, j: int|
                    0 <= i < j < sorted@.len() ==> (#[trigger] sorted@[i]).0
                        <= (#[trigger] sorted@[j]).0,
            decreases sorted@.len() - pos,
        {
            pos += 1;
        }
        let ghost pre = sorted@;
        sorted.insert(pos, r);
        proof {
            lemma_insert_sorted_at(pre, r, pos as int);
            assert(sorted@ == insert_sorted(pre, r));
            assert(sorted@ == sort_by_start(orig.skip(k - 1)));
            assert forall|i: int, j: int| 0 <= i < j < sorted@.len() implies (
            #[trigger] sorted@[i]).0 <= (#[trigger] sorted@[j]).0 by {
                let a = if i < pos { pre[i] } else if i == pos { r } else { pre[i - 1] };
                assert(sorted@[i] == a);
                let b = if j < pos { pre[j] } else if j == pos { r } else { pre[j - 1] };
                assert(sorted@[j] == b);
                if j > pos {
                    assert(pre[pos as int].0 > r.0);
                }
            }
        }
    }
    proof {
        assert(orig.skip(0) =~= orig);
    }
    let n = sorted.len();
    *ranges = sorted;
    proof {
        assert(ranges@.len() == n);
    }
}

/// The uniqueness component of `ms[f..=l]`, computed by sorting the query
/// ranges by start and sweeping them, merging overlap and adjacency.
#[verifier::rlimit(100)]
fn uniqueness_score(ms: &Vec<Match>, f: usize, l: usize) -> (u: i128)
    requires
        f <= l < ms@.len(),
    ensures
        0 <= u,
        u == uniqueness_score_spec(ms@, f as int, l as int),
{
    let mut ranges: Vec<(u16, u16)> = Vec::new();
    let n_ms = ms.len();
    let mut i: usize = f;
    proof {
        assert(ranges@ =~= window_ranges(ms@, f as int, f - 1));
    }
    while i <= l
        invariant
            f <= i <= l + 1,
            l < n_ms == ms@.len(),
            ranges@ == window_ranges(ms@, f as int, i - 1),
        decreases l + 1 - i,
    {
        let p = ms[i].position;
        let lo = if p.start <= p.end {
            p.start
        } else {
            p.end
        };
        let hi = if p.start <= p.end {
            p.end
        } else {
            p.start
        };
        ranges.push((lo, hi));
        proof {
            assert(ranges@ =~= window_ranges(ms@, f as int, i as int));
        }
        i += 1;
    }
    sort_ranges(&mut ranges);
    let ghost s = sort_by_start(window_ranges(ms@, f as int, l as int));
    if ranges.len() == 0 {
        return 0;
    }
    let mut acc: i128 = 0;
    let mut cs: u16 = ranges[0].0;
    let mut ce_wide: i128 = ranges[0].1 as i128;
    let mut j: usize = 1;
    while j < ranges.len()
        invariant
            ranges@ == s,
            1 <= j <= ranges@.len(),
            0 <= acc <= 0x10001 * (j as i128),
            -1 <= ce_wide <= 0xffff,
            merge_sweep(s, 1, s[0].0 as int, s[0].1 as int, 0) == merge_sweep(
                s,
                j as int,
                cs as int,
                ce_wide as int,
                acc as int,
            ),
        decreases ranges@.len() - j,
    {
        let (st, e) = ranges[j];
        if st as i128 <= ce_wide + 1 {
            if e as i128 > ce_wide {
                ce_wide = e as i128;
            }
            if ce_wide < cs as i128 {
                ce_wide = cs as i128;
            }
        } else {
            if ce_wide >= cs as i128 {
                acc = acc + (ce_wide - cs as i128 + 1);
            }
            cs = st;
            ce_wide = e as i128;
        }
        j += 1;
    }
    if ce_wide >= cs as i128 {
        acc = acc + (ce_wide - cs as i128 + 1);
    }
    acc
}

/// A phrase's internal word gaps: one per space between its words, zero for
/// a single word.
pub open spec fn internal_gaps(m: Match) -> int {
    if m.last_word >= m.first_word {
        m.last_word - m.first_word
    } else {
        0
    }
}

/// The distance component over `ms[f..=i]`: minus the word gap between each
/// pair of neighbouring matches, capped at seven, minus one per
/// phrase-internal word gap.
pub open spec fn distance_score_spec(ms: Seq<Match>, f: int, i: int) -> int
    decreases i - f,
{
    if i < f || f < 0 || i >= ms.len() {
        0
    } else if i == f {
        -internal_gaps(ms[i])
    } else {
        let gap = ms[i].first_word - ms[i - 1].last_word;
        let capped = if 0 <= gap < 7 {
            gap
        } else {
            7
        };
        distance_score_spec(ms, f, i - 1) - capped - internal_gaps(ms[i])
    }
}

/// The order component over `ms[f..=i]`: one per match that continues the
/// query order (the first always does, a later one when its query position
/// does not start before its predecessor's), plus one per phrase-internal
/// word gap.
pub open spec fn order_score_spec(ms: Seq<Match>, f: int, i: int) -> int
    decreases i - f,
{
    if i < f || f < 0 || i >= ms.len() {
        0
    } else if i == f {
        1 + internal_gaps(ms[i])
    } else {
        order_score_spec(ms, f, i - 1) + (if ms[i].position.start >= ms[i - 1].position.start {
            1int
        } else {
            0int
        }) + internal_gaps(ms[i])
    }
}

/// Bounds of the distance and order components over a well-formed window:
/// the word spans telescope, so both stay within the window's word extent.
proof fn lemma_score_spec_bounds(ms: Seq<Match>, tokens: Seq<Token>, bytes: Seq<u8>, f: int, i: int)
    requires
        tokens_wf(tokens, bytes),
        matches_wf(ms, tokens, bytes),
        0 <= f <= i < ms.len(),
    ensures
        -(7 * (i - f)) - (ms[i].last_word - ms[f].first_word) <= distance_score_spec(ms, f, i)
            <= 0,
        1 <= order_score_spec(ms, f, i) <= 1 + (i - f) + (ms[i].last_word - ms[f].first_word),
        ms[f].first_word <= ms[i].last_word,
    decreases i - f,
{
    lemma_word_index_monotone(
        tokens,
        ms[i].first_token as int,
        ms[i].last_token as int,
    );
    if i == f {
    } else {
        lemma_score_spec_bounds(ms, tokens, bytes, f, i - 1);
        lemma_matches_ordered(ms, tokens, bytes, i - 1, i);
    }
}

/// Score of the match interval `ms[f..=l]`: covered query positions, the
/// distance component, and the order component.
#[verifier::rlimit(100)]
fn get_score(
    ms: &Vec<Match>,
    f: usize,
    l: usize,
    Ghost(tokens): Ghost<Seq<Token>>,
    Ghost(bytes): Ghost<Seq<u8>>,
) -> (r: (i128, i128, i128))
    requires
        f <= l < ms@.len(),
        tokens_wf(tokens, bytes),
        matches_wf(ms@, tokens, bytes),
    ensures
        0 <= r.0,
        r.0 == uniqueness_score_spec(ms@, f as int, l as int),
        r.1 == distance_score_spec(ms@, f as int, l as int),
        r.2 == order_score_spec(ms@, f as int, l as int),
{
    let uniq = uniqueness_score(ms, f, l);
    proof {
        lemma_score_spec_bounds(ms@, tokens, bytes, f as int, f as int);
        lemma_word_index_monotone(
            tokens,
            ms@[f as int].first_token as int,
            ms@[f as int].last_token as int,
        );
    }
    let m0 = &ms[f];
    let internal0 = m0.last_word as i128 - m0.first_word as i128;
    let mut distance: i128 = -internal0;
    let mut order: i128 = 1 + internal0;
    let mut i: usize = f;
    while i < l
        invariant
            f <= i <= l,
            l < ms@.len(),
            tokens_wf(tokens, bytes),
            matches_wf(ms@, tokens, bytes),
            distance == distance_score_spec(ms@, f as int, i as int),
            order == order_score_spec(ms@, f as int, i as int),
        decreases l - i,
    {
        proof {
            lemma_score_spec_bounds(ms@, tokens, bytes, f as int, i as int);
            lemma_score_spec_bounds(ms@, tokens, bytes, f as int, i + 1 as int);
            lemma_matches_ordered(ms@, tokens, bytes, i as int, i + 1 as int);
            lemma_word_index_monotone(
                tokens,
                ms@[i + 1 as int].first_token as int,
                ms@[i + 1 as int].last_token as int,
            );
        }
        let m = &ms[i + 1];
        let prev = &ms[i];
        let internal = m.last_word as i128 - m.first_word as i128;
        let gap = m.first_word as i128 - prev.last_word as i128;
        let capped = if 0 <= gap && gap < 7 {
            gap
        } else {
            7
        };
        distance = distance - capped - internal;
        if m.position.start >= prev.position.start {
            order = order + 1;
        }
        order = order + internal;
        i += 1;
    }
    (uniq, distance, order)
}

/// Lexicographic comparison of scores: is `a` strictly greater than `b`?
fn score_gt(a: (i128, i128, i128), b: (i128, i128, i128)) -> (r: bool)
    ensures
        r == (a.0 > b.0 || (a.0 == b.0 && (a.1 > b.1 || (a.1 == b.1 && a.2 > b.2)))),
{
    a.0 > b.0 || (a.0 == b.0 && (a.1 > b.1 || (a.1 == b.1 && a.2 > b.2)))
}

/// The full score of the interval `ms[f..=l]`.
pub open spec fn score_spec(ms: Seq<Match>, f: int, l: int) -> (int, int, int) {
    (
        uniqueness_score_spec(ms, f, l),
        distance_score_spec(ms, f, l),
        order_score_spec(ms, f, l),
    )
}

/// Lexicographic strictly-greater on scores.
pub open spec fn score_gt_spec(a: (int, int, int), b: (int, int, int)) -> bool {
    a.0 > b.0 || (a.0 == b.0 && (a.1 > b.1 || (a.1 == b.1 && a.2 > b.2)))
}

/// The sweep's running state: the window's first match, and the best
/// interval seen so far (none yet while `have` is false).
pub struct IntervalSweep {
    pub first: int,
    pub have: bool,
    pub best_first: int,
    pub best_last: int,
    pub best_score: (int, int, int),
}

/// Score the candidate interval `[f, l]` and keep it only when its score is
/// strictly greater than the best so far: ties keep the earlier interval.
pub open spec fn consider(ms: Seq<Match>, st: IntervalSweep, f: int, l: int) -> IntervalSweep {
    let sc = score_spec(ms, f, l);
    if !st.have || score_gt_spec(sc, st.best_score) {
        IntervalSweep { first: st.first, have: true, best_first: f, best_last: l, best_score: sc }
    } else {
        st
    }
}

/// Advance the window's first match until the match ending at word `nlw`
/// fits the crop budget, or the last match is reached.
#[verifier::opaque]
pub open spec fn advance_first(ms: Seq<Match>, first: int, nlw: int, crop: int) -> int
    decreases ms.len() - first,
{
    if first < 0 || first >= ms.len() - 1 {
        first
    } else {
        let f1 = first + 1;
        if ms[f1].first_word > nlw || nlw - ms[f1].first_word < crop {
            f1
        } else {
            advance_first(ms, f1, nlw, crop)
        }
    }
}

/// One unfolding step of `advance_first`.
proof fn lemma_advance_first_unfold(ms: Seq<Match>, first: int, nlw: int, crop: int)
    ensures
        advance_first(ms, first, nlw, crop) == (if first < 0 || first >= ms.len() - 1 {
            first
        } else {
            let f1 = first + 1;
            if ms[f1].first_word > nlw || nlw - ms[f1].first_word < crop {
                f1
            } else {
                advance_first(ms, f1, nlw, crop)
            }
        }),
{
    reveal(advance_first);
}

/// The selection sweep from match `index` on: whenever the next match would
/// overflow the crop window, the pending interval (if any) is scored and the
/// window start advanced.
#[verifier::opaque]
pub open spec fn interval_sweep(
    ms: Seq<Match>,
    crop: int,
    st: IntervalSweep,
    index: int,
) -> IntervalSweep
    decreases ms.len() - index,
{
    if index < 0 || index >= ms.len() || !(0 <= st.first < ms.len()) {
        st
    } else {
        let nlw = ms[index].last_word as int;
        let st1 = if nlw - ms[st.first].first_word >= crop {
            let st0 = if index != 0 && st.first <= index - 1 {
                consider(ms, st, st.first, index - 1)
            } else {
                st
            };
            IntervalSweep {
                first: advance_first(ms, st0.first, nlw, crop),
                have: st0.have,
                best_first: st0.best_first,
                best_last: st0.best_last,
                best_score: st0.best_score,
            }
        } else {
            st
        };
        interval_sweep(ms, crop, st1, index + 1)
    }
}

/// One unfolding step of `interval_sweep`.
proof fn lemma_interval_sweep_unfold(ms: Seq<Match>, crop: int, st: IntervalSweep, index: int)
    ensures
        interval_sweep(ms, crop, st, index) == (if index < 0 || index >= ms.len() || !(0
            <= st.first < ms.len()) {
            st
        } else {
            let nlw = ms[index].last_word as int;
            let st1 = if nlw - ms[st.first].first_word >= crop {
                let st0 = if index != 0 && st.first <= index - 1 {
                    consider(ms, st, st.first, index - 1)
                } else {
                    st
                };
                IntervalSweep {
                    first: advance_first(ms, st0.first, nlw, crop),
                    have: st0.have,
                    best_first: st0.best_first,
                    best_last: st0.best_last,
                    best_score: st0.best_score,
                }
            } else {
                st
            };
            interval_sweep(ms, crop, st1, index + 1)
        }),
{
    reveal(interval_sweep);
}

/// The interval the selection procedure yields: sweep all matches, then
/// consider the interval reaching the last match unless it is a single match
/// at least as wide as the crop window; default to the first match alone.
pub open spec fn best_interval_spec(ms: Seq<Match>, crop: int) -> (int, int) {
    let init = IntervalSweep {
        first: 0,
        have: false,
        best_first: 0,
        best_last: 0,
        best_score: (0, 0, 0),
    };
    let st = interval_sweep(ms, crop, init, 0);
    let last = ms.len() - 1;
    let st2 = if 0 <= st.first < ms.len() && (st.first != last || ms[st.first].last_word
        - ms[st.first].first_word + 1 < crop) {
        consider(ms, st, st.first, last)
    } else {
        st
    };
    if st2.have {
        (st2.best_first, st2.best_last)
    } else {
        (0, 0)
    }
}

/// Pick the first and last index of the best-scoring interval of matches
/// under the crop budget, sliding a window over the matches in token order:
/// exactly the interval that `best_interval_spec` names.
#[verifier::rlimit(100)]
pub fn get_best_match_interval(
    ms: &Vec<Match>,
    crop_size: usize,
    Ghost(tokens): Ghost<Seq<Token>>,
    Ghost(bytes): Ghost<Seq<u8>>,
) -> (r: (usize, usize))
    requires
        ms@.len() > 0,
        tokens_wf(tokens, bytes),
        matches_wf(ms@, tokens, bytes),
    ensures
        r.0 <= r.1 < ms@.len(),
        (r.0 as int, r.1 as int) == best_interval_spec(ms@, crop_size as int),
{
    let ghost crop = crop_size as int;
    let ghost init = IntervalSweep {
        first: 0,
        have: false,
        best_first: 0,
        best_last: 0,
        best_score: (0, 0, 0),
    };
    let ghost target = interval_sweep(ms@, crop, init, 0);

    let mut have_best: bool = false;
    let mut best_first: usize = 0;
    let mut best_last: usize = 0;
    let mut best_score: (i128, i128, i128) = (0, 0, 0);

    let n = ms.len();
    let mut interval_first: usize = 0;
    let mut index: usize = 0;
    while index < n
        invariant
            tokens_wf(tokens, bytes),
            matches_wf(ms@, tokens, bytes),
            crop == crop_size as int,
            n == ms@.len(),
            0 < n,
            index <= n,
            interval_first < n,
            have_best ==> best_first <= best_last < n,
            target == interval_sweep(ms@, crop, init, 0),
            target == interval_sweep(
                ms@,
                crop,
                IntervalSweep {
                    first: interval_first as int,
                    have: have_best,
                    best_first: best_first as int,
                    best_last: best_last as int,
                    best_score: (
                        best_score.0 as int,
                        best_score.1 as int,
                        best_score.2 as int,
                    ),
                },
                index as int,
            ),
        decreases n - index,
    {
        let ghost st_in = IntervalSweep {
            first: interval_first as int,
            have: have_best,
            best_first: best_first as int,
            best_last: best_last as int,
            best_score: (best_score.0 as int, best_score.1 as int, best_score.2 as int),
        };
        proof {
            lemma_interval_sweep_unfold(ms@, crop, st_in, index as int);
        }
        let next_last_word = ms[index].last_word;
        let window = next_last_word as i128 - ms[interval_first].first_word as i128;
        if window >= crop_size as i128 {
            if index != 0 && interval_first <= index - 1 {
                let score = get_score(ms, interval_first, index - 1, Ghost(tokens), Ghost(bytes));
                if !have_best || score_gt(score, best_score) {
                    have_best = true;
                    best_first = interval_first;
                    best_last = index - 1;
                    best_score = score;
                }
            }
            let ghost st0 = if index != 0 && st_in.first <= index - 1 {
                consider(ms@, st_in, st_in.first, index as int - 1)
            } else {
                st_in
            };
            proof {
                assert(have_best == st0.have);
                assert(best_first as int == st0.best_first);
                assert(best_last as int == st0.best_last);
                assert((best_score.0 as int, best_score.1 as int, best_score.2 as int)
                    == st0.best_score);
            }
            // advance the interval start until the window can take the next match
            let ghost adv_target = advance_first(ms@, interval_first as int, next_last_word as int, crop);
            let mut adv_done: bool = false;
            while !adv_done
                invariant
                    n == ms@.len(),
                    interval_first < n,
                    index < n,
                    crop == crop_size as int,
                    !adv_done ==> adv_target == advance_first(
                        ms@,
                        interval_first as int,
                        ms@[index as int].last_word as int,
                        crop,
                    ),
                    adv_done ==> interval_first as int == adv_target,
                    next_last_word == ms@[index as int].last_word,
                decreases n - interval_first + (if adv_done {
                    0int
                } else {
                    1int
                }),
            {
                proof {
                    lemma_advance_first_unfold(
                        ms@,
                        interval_first as int,
                        next_last_word as int,
                        crop,
                    );
                }
                if interval_first >= n - 1 {
                    adv_done = true;
                } else {
                    interval_first += 1;
                    let first_word = ms[interval_first].first_word as i128;
                    let nlw = next_last_word as i128;
                    let fits = first_word > nlw || nlw - first_word < crop_size as i128;
                    if fits {
                        adv_done = true;
                    }
                }
            }
        }
        index += 1;
    }

    // consider the interval that reaches the last match, unless it is a
    // single match wider than the crop window
    let ghost st_end = IntervalSweep {
        first: interval_first as int,
        have: have_best,
        best_first: best_first as int,
        best_last: best_last as int,
        best_score: (best_score.0 as int, best_score.1 as int, best_score.2 as int),
    };
    proof {
        lemma_interval_sweep_unfold(ms@, crop, st_end, index as int);
        assert(st_end == target);
        if interval_first < ms@.len() - 1 {
            lemma_matches_ordered(ms@, tokens, bytes, interval_first as int, ms@.len() - 1);
        }
        lemma_word_index_monotone(
            tokens,
            ms@[interval_first as int].first_token as int,
            ms@[interval_first as int].last_token as int,
        );
    }
    let interval_last = n - 1;
    let word_count = ms[interval_first].last_word as i128 - ms[interval_first].first_word as i128
        + 1;
    if interval_first != interval_last || word_count < crop_size as i128 {
        let score = get_score(ms, interval_first, interval_last, Ghost(tokens), Ghost(bytes));
        if !have_best || score_gt(score, best_score) {
            have_best = true;
            best_first = interval_first;
            best_last = interval_last;
            best_score = score;
        }
    }
    if have_best {
        (best_first, best_last)
    } else {
        (0, 0)
    }
}

} // verus!
