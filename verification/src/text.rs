//! Text as bytes: what std's strings do that vstd does not specify.

use vstd::prelude::*;
use vstd::utf8::{
    encode_utf8, encode_utf8_valid_utf8, is_char_boundary,
    is_char_boundary_iff_not_is_continuation_byte, valid_utf8, valid_utf8_concat,
    valid_utf8_split,
};

verus! {

/// The byte of a line feed.
pub const NEWLINE: u8 = 0x0A;

/// `String::push`: appends `c` to `text`.
#[verifier::external_body]
pub(crate) fn push_char(text: &mut String, c: char)
    ensures
        final(text)@ == old(text)@.push(c),
{
    text.push(c)
}

/// `String::truncate`: cuts `text` down to its first `len` bytes.
#[verifier::external_body]
pub(crate) fn truncate(text: &mut String, len: usize)
    requires
        len <= encode_utf8(old(text)@).len(),
        is_char_boundary(encode_utf8(old(text)@), len as int),
    ensures
        encode_utf8(final(text)@) == encode_utf8(old(text)@).take(len as int),
{
    text.truncate(len)
}

/// The bytes of a text are those of its first part, then those of the rest.
pub proof fn lemma_bytes_concat(first: Seq<char>, second: Seq<char>)
    ensures
        encode_utf8(first + second) == encode_utf8(first) + encode_utf8(second),
    decreases first.len(),
{
    if first.len() > 0 {
        lemma_bytes_concat(first.drop_first(), second);
        assert((first + second).drop_first() == first.drop_first() + second);
    }
}

/// A line feed is the one byte `0x0A`.
pub proof fn lemma_newline_byte()
    ensures
        encode_utf8(seq!['\n']) == seq![NEWLINE],
{
    let one = seq!['\n'];
    assert(encode_utf8(one.drop_first()) == Seq::<u8>::empty());
    assert(0x0Au32 & 0x7F == 0x0A) by (bit_vector);
}

/// The bytes between two boundaries of characters are text by themselves.
pub proof fn lemma_slice_is_text(bytes: Seq<u8>, from: int, to: int)
    requires
        valid_utf8(bytes),
        0 <= from <= to <= bytes.len(),
        is_char_boundary(bytes, from),
        is_char_boundary(bytes, to),
    ensures
        valid_utf8(bytes.subrange(from, to)),
{
    let head = bytes.subrange(0, to);
    valid_utf8_split(bytes, to);
    if from < to {
        is_char_boundary_iff_not_is_continuation_byte(bytes, from);
        is_char_boundary_iff_not_is_continuation_byte(head, from);
        valid_utf8_split(head, from);
        assert(head.subrange(from, head.len() as int) == bytes.subrange(from, to));
    }
}

/// Text behind text is text.
pub proof fn lemma_text_concat(first: Seq<u8>, second: Seq<u8>)
    requires
        valid_utf8(first),
        valid_utf8(second),
    ensures
        valid_utf8(first + second),
{
    valid_utf8_concat(first, second);
}

/// A line feed is text.
pub proof fn lemma_newline_is_text()
    ensures
        valid_utf8(seq![NEWLINE]),
{
    lemma_newline_byte();
    encode_utf8_valid_utf8(seq!['\n']);
}

} // verus!
