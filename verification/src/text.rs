//! Texts as UTF-8: byte offsets into a string, and strings cut and put
//! together at such offsets.

use vstd::prelude::*;
use vstd::string::*;
use vstd::utf8::*;

verus! {

/// Whether `start..end` is a range of `bytes` that begins and ends between
/// two characters.
pub open spec fn cut_ok(bytes: Seq<u8>, start: int, end: int) -> bool {
    &&& 0 <= start <= end <= bytes.len()
    &&& is_char_boundary(bytes, start)
    &&& is_char_boundary(bytes, end)
}

/// The encoding of two texts in a row is the two encodings in a row.
pub proof fn lemma_encode_concat(a: Seq<char>, b: Seq<char>)
    ensures
        encode_utf8(a + b) == encode_utf8(a) + encode_utf8(b),
    decreases a.len(),
{
    if a.len() == 0 {
        assert(a + b == b);
    } else {
        assert((a + b).drop_first() == a.drop_first() + b);
        lemma_encode_concat(a.drop_first(), b);
    }
}

/// A place between two characters of a text is one in each part of the
/// text that reaches it.
pub proof fn lemma_boundary_in_prefix(bytes: Seq<u8>, index: int, end: int)
    requires
        valid_utf8(bytes),
        cut_ok(bytes, index, end),
    ensures
        valid_utf8(bytes.subrange(0, end)),
        is_char_boundary(bytes.subrange(0, end), index),
{
    valid_utf8_split(bytes, end);
    let head = bytes.subrange(0, end);
    if index == end {
        is_char_boundary_start_end_of_seq(head);
    } else {
        is_char_boundary_iff_not_is_continuation_byte(bytes, index);
        is_char_boundary_iff_not_is_continuation_byte(head, index);
    }
}

/// The part of `text` between the byte offsets `start` and `end`.
pub fn slice<'a>(text: &'a str, start: usize, end: usize) -> (r: &'a str)
    requires
        cut_ok(text.spec_bytes(), start as int, end as int),
    ensures
        r.spec_bytes() == text.spec_bytes().subrange(start as int, end as int),
        r@ == decode_utf8(text.spec_bytes().subrange(start as int, end as int)),
{
    proof {
        encode_utf8_valid_utf8(text@);
        lemma_boundary_in_prefix(text.spec_bytes(), start as int, end as int);
    }
    let (head, _) = text.split_at(end);
    let (_, mid) = head.split_at(start);
    proof {
        assert(head.spec_bytes().subrange(start as int, end as int) == text.spec_bytes().subrange(
            start as int,
            end as int,
        ));
        encode_utf8_decode_utf8(mid@);
    }
    mid
}

/// Adds `piece` at the end of `text`.
pub fn push_text(text: &mut String, piece: &str)
    ensures
        final(text)@ == old(text)@ + piece@,
        encode_utf8(final(text)@) == encode_utf8(old(text)@) + encode_utf8(piece@),
{
    proof {
        lemma_encode_concat(text@, piece@);
    }
    text.append(piece);
}

} // verus!
