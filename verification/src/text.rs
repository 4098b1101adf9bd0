//! Byte-exact, character-safe views into the source text.
//!
//! Every byte offset handed around by the matcher must sit on a UTF-8
//! character boundary of the original text. This module provides the verified
//! slicing and counting primitives that the rest of the crate builds on, all
//! specified against vstd's UTF-8 model (`encode_utf8` / `decode_utf8`).

use vstd::prelude::*;
use vstd::string::StrSliceExecFns;
use vstd::string::StringSliceAdditionalSpecFns;
use vstd::utf8::{
    decode_utf8, encode_utf8, encode_utf8_decode_utf8, encode_utf8_first_scalar,
    encode_utf8_valid_utf8, is_char_boundary, is_char_boundary_iff_not_is_continuation_byte,
    is_char_boundary_start_end_of_seq, is_continuation_byte, valid_first_scalar, valid_utf8,
    valid_utf8_split, decode_utf8_split, valid_leading_and_continuation_bytes_first_codepoint,
    is_leading_byte_width_1, is_leading_byte_width_2, is_leading_byte_width_3,
    is_leading_byte_width_4,
};

verus! {

/// The characters encoded by the byte range `[from, to)` of `bytes`.
#[verifier::opaque]
pub open spec fn span_chars(bytes: Seq<u8>, from: int, to: int) -> Seq<char> {
    decode_utf8(bytes.subrange(from, to))
}

/// `i` sits on a UTF-8 character boundary of `bytes`.
#[verifier::opaque]
pub open spec fn boundary(bytes: Seq<u8>, i: int) -> bool {
    is_char_boundary(bytes, i)
}

/// The byte sequence of a string is a valid UTF-8 encoding of its characters.
pub proof fn lemma_str_bytes_valid(text: &str)
    ensures
        valid_utf8(text.spec_bytes()),
        decode_utf8(text.spec_bytes()) == text@,
{
    encode_utf8_valid_utf8(text@);
    encode_utf8_decode_utf8(text@);
}

/// A character boundary of a sequence is also a boundary of any enclosing
/// prefix cut at a boundary, and vice versa.
pub proof fn lemma_boundary_in_prefix(bytes: Seq<u8>, cut: int, i: int)
    requires
        valid_utf8(bytes),
        is_char_boundary(bytes, cut),
        is_char_boundary(bytes, i),
        0 <= i <= cut <= bytes.len(),
    ensures
        valid_utf8(bytes.subrange(0, cut)),
        is_char_boundary(bytes.subrange(0, cut), i),
{
    valid_utf8_split(bytes, cut);
    let pre = bytes.subrange(0, cut);
    if i == cut {
        is_char_boundary_start_end_of_seq(pre);
    } else if i > 0 {
        is_char_boundary_iff_not_is_continuation_byte(bytes, i);
        is_char_boundary_iff_not_is_continuation_byte(pre, i);
    }
}

/// Splitting a valid byte range at an interior boundary splits its decoding.
pub proof fn lemma_span_split(bytes: Seq<u8>, a: int, b: int, c: int)
    requires
        valid_utf8(bytes),
        is_char_boundary(bytes, a),
        is_char_boundary(bytes, b),
        is_char_boundary(bytes, c),
        0 <= a <= b <= c <= bytes.len(),
    ensures
        valid_utf8(bytes.subrange(a, c)),
        is_char_boundary(bytes.subrange(a, c), b - a),
        span_chars(bytes, a, c) == span_chars(bytes, a, b) + span_chars(bytes, b, c),
{
    reveal(span_chars);
    valid_utf8_split(bytes, a);
    let tail = bytes.subrange(a, bytes.len() as int);
    let sub = bytes.subrange(a, c);
    assert(sub =~= tail.subrange(0, c - a));
    // boundaries transfer from `bytes` to `tail`
    assert(is_char_boundary(tail, c - a)) by {
        if c == a {
        } else if c == bytes.len() {
            is_char_boundary_start_end_of_seq(tail);
        } else {
            is_char_boundary_iff_not_is_continuation_byte(bytes, c);
            is_char_boundary_iff_not_is_continuation_byte(tail, c - a);
        }
    }
    assert(is_char_boundary(tail, b - a)) by {
        if b == a {
        } else if b == bytes.len() {
            is_char_boundary_start_end_of_seq(tail);
        } else {
            is_char_boundary_iff_not_is_continuation_byte(bytes, b);
            is_char_boundary_iff_not_is_continuation_byte(tail, b - a);
        }
    }
    lemma_boundary_in_prefix(tail, c - a, b - a);
    decode_utf8_split(sub, b - a);
    assert(sub.subrange(0, b - a) =~= bytes.subrange(a, b));
    assert(sub.subrange(b - a, sub.len() as int) =~= bytes.subrange(b, c));
}

/// The ends of a valid byte sequence are character boundaries.
pub proof fn lemma_boundary_edges(bytes: Seq<u8>)
    requires
        valid_utf8(bytes),
    ensures
        boundary(bytes, 0),
        boundary(bytes, bytes.len() as int),
{
    reveal(boundary);
    is_char_boundary_start_end_of_seq(bytes);
}

/// The ends of a text's byte run are character boundaries.
pub proof fn lemma_text_edges(text: &str)
    ensures
        boundary(text.spec_bytes(), 0),
        boundary(text.spec_bytes(), text.spec_bytes().len() as int),
{
    lemma_str_bytes_valid(text);
    lemma_boundary_edges(text.spec_bytes());
}

/// Byte length of `text`, together with the fact that it fits in `usize`.
pub fn text_byte_len(text: &str) -> (n: usize)
    ensures
        n == text.spec_bytes().len(),
{
    text.as_bytes().len()
}

/// Borrow the byte range `[from, to)` of `text` as a string slice.
pub fn slice_text<'a>(text: &'a str, from: usize, to: usize) -> (r: &'a str)
    requires
        from <= to <= text.spec_bytes().len(),
        boundary(text.spec_bytes(), from as int),
        boundary(text.spec_bytes(), to as int),
    ensures
        r.spec_bytes() == text.spec_bytes().subrange(from as int, to as int),
        r@ == span_chars(text.spec_bytes(), from as int, to as int),
{
    proof {
        reveal(span_chars);
        reveal(boundary);
        lemma_str_bytes_valid(text);
        lemma_boundary_in_prefix(text.spec_bytes(), to as int, from as int);
    }
    let (left, _) = text.split_at(to);
    let (_, mid) = left.split_at(from);
    proof {
        reveal(span_chars);
        assert(mid.spec_bytes() =~= text.spec_bytes().subrange(from as int, to as int));
        encode_utf8_decode_utf8(mid@);
    }
    mid
}

/// Number of characters encoded by the byte range `[from, to)` of `text`.
pub fn span_char_count(text: &str, from: usize, to: usize) -> (n: usize)
    requires
        from <= to <= text.spec_bytes().len(),
        boundary(text.spec_bytes(), from as int),
        boundary(text.spec_bytes(), to as int),
    ensures
        n == span_chars(text.spec_bytes(), from as int, to as int).len(),
{
    let mid = slice_text(text, from, to);
    mid.unicode_len()
}

/// `encode_utf8` distributes over concatenation.
pub proof fn lemma_encode_utf8_concat(a: Seq<char>, b: Seq<char>)
    ensures
        encode_utf8(a + b) == encode_utf8(a) + encode_utf8(b),
    decreases a.len(),
{
    if a.len() == 0 {
        assert(a + b =~= b);
        assert(encode_utf8(a) + encode_utf8(b) =~= encode_utf8(b));
    } else {
        assert((a + b).drop_first() =~= a.drop_first() + b);
        lemma_encode_utf8_concat(a.drop_first(), b);
        assert(encode_utf8(a + b) =~= encode_utf8(a) + encode_utf8(b));
    }
}

/// End offset, within `text`, of the first `k` characters of the byte range
/// `[from, to)`: the unique boundary `e` with exactly `k` characters between
/// `from` and `e`.
pub fn char_prefix_end(text: &str, from: usize, to: usize, k: usize) -> (e: usize)
    requires
        from <= to <= text.spec_bytes().len(),
        boundary(text.spec_bytes(), from as int),
        boundary(text.spec_bytes(), to as int),
        k <= span_chars(text.spec_bytes(), from as int, to as int).len(),
    ensures
        from <= e <= to,
        boundary(text.spec_bytes(), e as int),
        span_chars(text.spec_bytes(), from as int, e as int) == span_chars(
            text.spec_bytes(),
            from as int,
            to as int,
        ).take(k as int),
{
    proof {
        reveal(span_chars);
        reveal(boundary);
    }
    let ghost bytes = text.spec_bytes();
    let ghost all = span_chars(bytes, from as int, to as int);
    let mid = slice_text(text, from, to);
    let pre = mid.substring_char(0, k);
    proof {
        assert(pre@ =~= all.take(k as int));
        assert(mid@ =~= all.take(k as int) + all.skip(k as int));
        lemma_encode_utf8_concat(all.take(k as int), all.skip(k as int));
        assert(mid.spec_bytes() =~= pre.spec_bytes() + encode_utf8(all.skip(k as int)));
        assert(pre.spec_bytes().len() <= mid.spec_bytes().len());
    }
    let e = from + pre.len();
    proof {
        reveal(span_chars);
        reveal(boundary);
        lemma_str_bytes_valid(text);
        assert(bytes.subrange(from as int, e as int) =~= pre.spec_bytes());
        encode_utf8_decode_utf8(pre@);
        // `e` is a character boundary of the whole text
        if e < to {
            let rest = all.skip(k as int);
            assert(rest.len() > 0);
            encode_utf8_first_scalar(rest);
            let lead = encode_utf8(rest)[0];
            assert(bytes[e as int] == lead) by {
                assert(mid.spec_bytes()[pre.spec_bytes().len() as int] == encode_utf8(rest)[0]);
                assert(bytes.subrange(from as int, to as int)[(e - from) as int] == bytes[e as int]);
            }
            assert(valid_leading_and_continuation_bytes_first_codepoint(encode_utf8(rest)));
            assert(!is_continuation_byte(lead)) by {
                assert(is_leading_byte_width_1(lead) || is_leading_byte_width_2(lead)
                    || is_leading_byte_width_3(lead) || is_leading_byte_width_4(lead));
            }
            is_char_boundary_iff_not_is_continuation_byte(bytes, e as int);
        }
    }
    e
}

} // verus!
