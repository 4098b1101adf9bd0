//! The formatter.
//!
//! Renders a well-formed offset list over the original text: the slices
//! between consecutive offsets are emitted in order, alternately plain and
//! wrapped in the highlight delimiters, with a crop marker at either end when
//! the list does not reach the text's edge. The exact output is pinned down
//! by `formatted_output`, and the round-trip law says that the text slices,
//! stripped of all delimiters and markers, concatenate to one contiguous
//! substring of the original text.

use vstd::prelude::*;
use vstd::string::StringExecFns;
use vstd::string::StringSliceAdditionalSpecFns;

use crate::match_bounds::indexes_wf;
use crate::text::{
    boundary, lemma_span_split, lemma_str_bytes_valid, slice_text, span_chars,
};

verus! {

/// The rendering of the segments from offset pair `i` on, starting in
/// highlight state `hl`: each segment is the text slice between consecutive
/// offsets, wrapped in the delimiters when highlighted, states alternating.
pub open spec fn format_from(
    bytes: Seq<u8>,
    prefix: Seq<char>,
    suffix: Seq<char>,
    indexes: Seq<usize>,
    i: int,
    hl: bool,
) -> Seq<char>
    decreases indexes.len() - i,
{
    if i < 0 || i + 1 >= indexes.len() {
        Seq::empty()
    } else {
        let seg = span_chars(bytes, indexes[i] as int, indexes[i + 1] as int);
        (if hl {
            prefix + seg + suffix
        } else {
            seg
        }) + format_from(bytes, prefix, suffix, indexes, i + 1, !hl)
    }
}

/// The full formatted rendering: a leading crop marker when the list starts
/// after the text's first byte, the alternating segments, and a trailing
/// marker when the list ends before the text's last byte. An empty marker
/// suppresses both markers but still truncates.
pub open spec fn formatted_output(
    bytes: Seq<u8>,
    marker: Seq<char>,
    prefix: Seq<char>,
    suffix: Seq<char>,
    toggle: bool,
    indexes: Seq<usize>,
) -> Seq<char> {
    let lead = if indexes[0] != 0 && marker.len() > 0 {
        marker
    } else {
        Seq::empty()
    };
    let trail = if indexes[indexes.len() - 1] < bytes.len() && marker.len() > 0 {
        marker
    } else {
        Seq::empty()
    };
    lead + format_from(bytes, prefix, suffix, indexes, 0, toggle) + trail
}

/// Render the offset list over the text.
#[verifier::rlimit(100)]
pub fn format_text(
    text: &str,
    marker: &str,
    prefix: &str,
    suffix: &str,
    toggle: bool,
    indexes: &Vec<usize>,
) -> (out: String)
    requires
        indexes_wf(indexes@, text.spec_bytes()),
    ensures
        out@ == formatted_output(text.spec_bytes(), marker@, prefix@, suffix@, toggle, indexes@),
{
    let ghost bytes = text.spec_bytes();
    let ghost lead = if indexes@[0] != 0 && marker@.len() > 0 {
        marker@
    } else {
        Seq::<char>::empty()
    };
    let mut out = String::new();
    if indexes[0] != 0 && !marker.is_empty() {
        out.append(marker);
    }
    proof {
        assert(out@ =~= lead);
    }
    let mut i: usize = 0;
    let mut hl = toggle;
    let n = indexes.len();
    while i + 1 < n
        invariant
            indexes_wf(indexes@, bytes),
            bytes == text.spec_bytes(),
            n == indexes@.len(),
            i + 1 <= n,
            out@ + format_from(bytes, prefix@, suffix@, indexes@, i as int, hl) == lead
                + format_from(bytes, prefix@, suffix@, indexes@, 0, toggle),
        decreases n - i,
    {
        let seg = slice_text(text, indexes[i], indexes[i + 1]);
        let ghost before = out@;
        if hl {
            out.append(prefix);
            out.append(seg);
            out.append(suffix);
            proof {
                assert(out@ =~= before + (prefix@ + seg@ + suffix@));
            }
        } else {
            out.append(seg);
        }
        hl = !hl;
        i += 1;
    }
    if indexes[n - 1] < text.as_bytes().len() && !marker.is_empty() {
        let ghost before = out@;
        out.append(marker);
        proof {
            assert(out@ =~= before + marker@);
        }
    } else {
        proof {
            assert(out@ + Seq::<char>::empty() =~= out@);
        }
    }
    proof {
        assert(out@ =~= formatted_output(bytes, marker@, prefix@, suffix@, toggle, indexes@));
    }
    out
}

/// The text segments of the offset list, concatenated without any delimiter
/// or marker: what stripping the formatting leaves behind.
pub open spec fn stripped_output(bytes: Seq<u8>, indexes: Seq<usize>, i: int) -> Seq<char>
    decreases indexes.len() - i,
{
    if i < 0 || i + 1 >= indexes.len() {
        Seq::empty()
    } else {
        span_chars(bytes, indexes[i] as int, indexes[i + 1] as int) + stripped_output(
            bytes,
            indexes,
            i + 1,
        )
    }
}

/// Offsets of a well-formed list are ordered across any distance.
pub proof fn lemma_indexes_ordered(indexes: Seq<usize>, bytes: Seq<u8>, i: int, j: int)
    requires
        indexes_wf(indexes, bytes),
        0 <= i <= j < indexes.len(),
    ensures
        indexes[i] <= indexes[j],
    decreases j - i,
{
    if i < j {
        lemma_indexes_ordered(indexes, bytes, i, j - 1);
    }
}

/// The segments from pair `i` on concatenate to the single contiguous span
/// from offset `i` to the last offset.
pub proof fn lemma_stripped_contiguous(text: &str, indexes: Seq<usize>, i: int)
    requires
        indexes_wf(indexes, text.spec_bytes()),
        0 <= i < indexes.len(),
    ensures
        stripped_output(text.spec_bytes(), indexes, i) == span_chars(
            text.spec_bytes(),
            indexes[i] as int,
            indexes[indexes.len() - 1] as int,
        ),
    decreases indexes.len() - i,
{
    let bytes = text.spec_bytes();
    lemma_str_bytes_valid(text);
    reveal(boundary);
    if i + 1 >= indexes.len() {
        reveal(crate::text::span_chars);
        assert(bytes.subrange(indexes[i] as int, indexes[i] as int) =~= Seq::<u8>::empty());
    } else {
        lemma_stripped_contiguous(text, indexes, i + 1);
        lemma_indexes_ordered(indexes, bytes, i + 1, indexes.len() - 1);
        lemma_span_split(
            bytes,
            indexes[i] as int,
            indexes[i + 1] as int,
            indexes[indexes.len() - 1] as int,
        );
    }
}

/// Law: re-concatenating the text slices of a formatted output, with every
/// highlight delimiter and crop marker stripped, yields one contiguous
/// substring of the original text.
pub proof fn lemma_format_round_trip(text: &str, indexes: Seq<usize>)
    requires
        indexes_wf(indexes, text.spec_bytes()),
    ensures
        exists|a: int, b: int|
            0 <= a <= b <= text@.len() && stripped_output(text.spec_bytes(), indexes, 0)
                == text@.subrange(a, b),
{
    let bytes = text.spec_bytes();
    lemma_str_bytes_valid(text);
    reveal(boundary);
    lemma_stripped_contiguous(text, indexes, 0);
    let i0 = indexes[0] as int;
    let il = indexes[indexes.len() - 1] as int;
    lemma_indexes_ordered(indexes, bytes, 0, indexes.len() - 1);
    crate::text::lemma_boundary_edges(bytes);
    lemma_span_split(bytes, 0, i0, bytes.len() as int);
    lemma_span_split(bytes, i0, il, bytes.len() as int);
    let x = span_chars(bytes, 0, i0);
    let y = span_chars(bytes, i0, il);
    let z = span_chars(bytes, il, bytes.len() as int);
    let a = x.len() as int;
    let b = a + y.len() as int;
    assert(span_chars(bytes, 0, bytes.len() as int) == x + (y + z));
    assert(text@ == span_chars(bytes, 0, bytes.len() as int)) by {
        reveal(crate::text::span_chars);
        assert(bytes.subrange(0, bytes.len() as int) =~= bytes);
    }
    assert(text@ =~= x + (y + z));
    assert(0 <= a <= b <= text@.len());
    assert(y =~= text@.subrange(a, b));
    assert(stripped_output(bytes, indexes, 0) == y);
}

} // verus!
